//! The wire protocol: a closed two-variant command schema and its textual
//! encoding, a small JSON-shaped document with a discriminant tag.
//!
//! `Fire` is encoded as the bare string document `"Fire"`; `Bind(key)` is
//! encoded as an object with the `EstablishConnection` tag and the channel
//! key as its string payload, with `"` and `\` escaped inside the key.

use vstd::prelude::*;
use vstd::string::StrSliceExecFns;
use vstd::string::StringExecFns;

verus! {

/// A wire command: either a bind declaring a channel key, or a trigger.
#[derive(Debug, PartialEq)]
pub enum Command {
    Bind(String),
    Fire,
}

/// The mathematical model of a command: the channel key as a character sequence.
pub enum CommandModel {
    Bind(Seq<char>),
    Fire,
}

impl View for Command {
    type V = CommandModel;

    open spec fn view(&self) -> CommandModel {
        match self {
            Command::Bind(k) => CommandModel::Bind(k@),
            Command::Fire => CommandModel::Fire,
        }
    }
}

/// A malformed or unrecognized wire document. Recoverable: fatal only to the
/// offending message or handshake, never to the process.
#[derive(Debug, PartialEq)]
pub struct ProtocolError;

/// How one character of a channel key appears inside the quoted payload.
pub open spec fn escape_char(c: char) -> Seq<char> {
    if c == '"' || c == '\\' {
        seq!['\\', c]
    } else {
        seq![c]
    }
}

/// The escaped form of a whole channel key.
pub open spec fn escape_seq(s: Seq<char>) -> Seq<char>
    decreases s.len(),
{
    if s.len() == 0 {
        Seq::empty()
    } else {
        escape_char(s[0]) + escape_seq(s.skip(1))
    }
}

/// The inverse of escaping: `Some(key)` exactly when `s` is a well-formed
/// escaped payload (no bare `"` or `\`, every `\` followed by `"` or `\`).
pub open spec fn parse_escaped(s: Seq<char>) -> Option<Seq<char>>
    decreases s.len(),
{
    if s.len() == 0 {
        Some(Seq::empty())
    } else if s[0] == '\\' {
        if s.len() >= 2 && (s[1] == '"' || s[1] == '\\') {
            match parse_escaped(s.skip(2)) {
                Some(t) => Some(seq![s[1]] + t),
                None => None,
            }
        } else {
            None
        }
    } else if s[0] == '"' {
        None
    } else {
        match parse_escaped(s.skip(1)) {
            Some(t) => Some(seq![s[0]] + t),
            None => None,
        }
    }
}

/// The document that encodes `Fire`.
pub open spec fn fire_text() -> Seq<char> {
    "\"Fire\""@
}

/// The opening of a bind document, up to and including the payload's
/// opening quote.
pub open spec fn bind_open() -> Seq<char> {
    "{\"EstablishConnection\":\""@
}

/// The closing of a bind document: the payload's closing quote and the brace.
pub open spec fn bind_close() -> Seq<char> {
    "\"}"@
}

/// The wire text of a command.
pub open spec fn encode_model(c: CommandModel) -> Seq<char> {
    match c {
        CommandModel::Fire => fire_text(),
        CommandModel::Bind(k) => bind_open() + escape_seq(k) + bind_close(),
    }
}

/// The command a wire text denotes, or `None` for a malformed document.
pub open spec fn decode_model(s: Seq<char>) -> Option<CommandModel> {
    if s == fire_text() {
        Some(CommandModel::Fire)
    } else if s.len() >= bind_open().len() + bind_close().len()
        && s.subrange(0, bind_open().len() as int) == bind_open()
        && s.subrange(s.len() - bind_close().len(), s.len() as int) == bind_close() {
        match parse_escaped(
            s.subrange(bind_open().len() as int, s.len() - bind_close().len()),
        ) {
            Some(k) => Some(CommandModel::Bind(k)),
            None => None,
        }
    } else {
        None
    }
}

/// Relies on `String::push`: appends the given character to the end of the string.
#[verifier::external_body]
fn push_char(s: &mut String, c: char)
    ensures
        final(s)@ == old(s)@.push(c),
{
    s.push(c);
}

fn fire_str() -> (r: &'static str)
    ensures
        r@ == fire_text(),
{
    "\"Fire\""
}

fn bind_open_str() -> (r: &'static str)
    ensures
        r@ == bind_open(),
{
    "{\"EstablishConnection\":\""
}

fn bind_close_str() -> (r: &'static str)
    ensures
        r@ == bind_close(),
{
    "\"}"
}

proof fn lemma_escape_snoc(s: Seq<char>, c: char)
    ensures
        escape_seq(s.push(c)) == escape_seq(s) + escape_char(c),
    decreases s.len(),
{
    if s.len() == 0 {
        assert(s.push(c)[0] == c);
        assert(s.push(c).skip(1) =~= Seq::<char>::empty());
        assert(escape_seq(Seq::<char>::empty()) == Seq::<char>::empty());
        assert(escape_seq(s.push(c)) == escape_char(c) + Seq::<char>::empty());
        assert(escape_char(c) + Seq::<char>::empty() =~= escape_char(c));
        assert(escape_seq(s) + escape_char(c) =~= escape_char(c));
    } else {
        lemma_escape_snoc(s.skip(1), c);
        assert(s.push(c)[0] == s[0]);
        assert(s.push(c).skip(1) =~= s.skip(1).push(c));
        assert(escape_char(s[0]) + (escape_seq(s.skip(1)) + escape_char(c)) =~= (escape_char(
            s[0],
        ) + escape_seq(s.skip(1))) + escape_char(c));
    }
}

/// Serializes a command to its wire text. Encoding a well-formed command
/// always succeeds: the schema is closed.
pub fn encode(c: &Command) -> (r: String)
    ensures
        r@ == encode_model(c@),
{
    match c {
        Command::Fire => fire_str().to_owned(),
        Command::Bind(k) => {
            let mut out: String = bind_open_str().to_owned();
            let klen = k.as_str().unicode_len();
            let mut i: usize = 0;
            while i < klen
                invariant
                    i <= klen,
                    klen == k@.len(),
                    out@ == bind_open() + escape_seq(k@.take(i as int)),
                decreases klen - i,
            {
                let ch = k.as_str().get_char(i);
                proof {
                    assert(k@.take(i + 1) =~= k@.take(i as int).push(k@[i as int]));
                    lemma_escape_snoc(k@.take(i as int), k@[i as int]);
                }
                if ch == '"' || ch == '\\' {
                    push_char(&mut out, '\\');
                    push_char(&mut out, ch);
                    proof {
                        assert(out@ =~= bind_open() + (escape_seq(k@.take(i as int))
                            + escape_char(ch)));
                    }
                } else {
                    push_char(&mut out, ch);
                    proof {
                        assert(out@ =~= bind_open() + (escape_seq(k@.take(i as int))
                            + escape_char(ch)));
                    }
                }
                i += 1;
            }
            proof {
                assert(k@.take(klen as int) =~= k@);
            }
            out.append(bind_close_str());
            proof {
                assert(out@ =~= bind_open() + escape_seq(k@) + bind_close());
            }
            out
        },
    }
}

proof fn lemma_parse_escape(k: Seq<char>)
    ensures
        parse_escaped(escape_seq(k)) == Some(k),
    decreases k.len(),
{
    if k.len() == 0 {
        assert(escape_seq(k) =~= Seq::<char>::empty());
        assert(k =~= Seq::<char>::empty());
    } else {
        lemma_parse_escape(k.skip(1));
        let e = escape_seq(k);
        if k[0] == '"' || k[0] == '\\' {
            assert(e[0] == '\\');
            assert(e[1] == k[0]);
            assert(e.skip(2) =~= escape_seq(k.skip(1)));
            assert(seq![k[0]] + k.skip(1) =~= k);
        } else {
            assert(e[0] == k[0]);
            assert(e.skip(1) =~= escape_seq(k.skip(1)));
            assert(seq![k[0]] + k.skip(1) =~= k);
        }
    }
}

proof fn lemma_escape_parse(s: Seq<char>, k: Seq<char>)
    requires
        parse_escaped(s) == Some(k),
    ensures
        escape_seq(k) == s,
    decreases s.len(),
{
    if s.len() == 0 {
        assert(k =~= Seq::<char>::empty());
        assert(escape_seq(k) =~= s);
    } else if s[0] == '\\' {
        let t = parse_escaped(s.skip(2))->Some_0;
        lemma_escape_parse(s.skip(2), t);
        assert(k == seq![s[1]] + t);
        assert(k[0] == s[1]);
        assert(k.skip(1) =~= t);
        assert(escape_char(k[0]) =~= seq!['\\', s[1]]);
        assert(escape_char(k[0]) + s.skip(2) =~= s);
    } else {
        let t = parse_escaped(s.skip(1))->Some_0;
        lemma_escape_parse(s.skip(1), t);
        assert(k == seq![s[0]] + t);
        assert(k[0] == s[0]);
        assert(k.skip(1) =~= t);
        assert(escape_char(k[0]) =~= seq![s[0]]);
        assert(escape_char(k[0]) + s.skip(1) =~= s);
    }
}

/// Round trip: the wire text of any command decodes back to that very
/// command, so a well-formed document is never misread.
pub proof fn lemma_decode_encode(c: CommandModel)
    ensures
        decode_model(encode_model(c)) == Some(c),
{
    reveal_strlit("\"Fire\"");
    reveal_strlit("{\"EstablishConnection\":\"");
    reveal_strlit("\"}");
    match c {
        CommandModel::Fire => {
        },
        CommandModel::Bind(k) => {
            let e = bind_open() + escape_seq(k) + bind_close();
            assert(e[0] == bind_open()[0]);
            assert(e != fire_text());
            assert(e.subrange(0, 24) =~= bind_open());
            assert(e.subrange(e.len() - 2, e.len() as int) =~= bind_close());
            assert(e.subrange(24, e.len() - 2) =~= escape_seq(k));
            lemma_parse_escape(k);
        },
    }
}

/// Decoding is exact: a wire text that decodes to a command is that
/// command's encoding, character for character — no other document is accepted.
pub proof fn lemma_encode_decode(s: Seq<char>, c: CommandModel)
    requires
        decode_model(s) == Some(c),
    ensures
        encode_model(c) == s,
{
    reveal_strlit("\"Fire\"");
    reveal_strlit("{\"EstablishConnection\":\"");
    reveal_strlit("\"}");
    if s == fire_text() {
    } else {
        assert(s.len() >= 26);
        let mid = s.subrange(24, s.len() - 2);
        let k = parse_escaped(mid)->Some_0;
        lemma_escape_parse(mid, k);
        assert(bind_open() + mid + bind_close() =~= s);
    }
}

/// The escaped payload parsed so far, prepended to whatever the rest parses to.
spec fn opt_prepend(a: Seq<char>, o: Option<Seq<char>>) -> Option<Seq<char>> {
    match o {
        Some(t) => Some(a + t),
        None => None,
    }
}

/// Deserializes a wire text into the command it denotes; a document that
/// encodes no command is a `ProtocolError`.
pub fn decode(s: &str) -> (r: Result<Command, ProtocolError>)
    ensures
        match r {
            Ok(c) => decode_model(s@) == Some(c@),
            Err(_) => decode_model(s@) is None,
        },
{
    proof {
        reveal_strlit("\"Fire\"");
        reveal_strlit("{\"EstablishConnection\":\"");
        reveal_strlit("\"}");
    }
    let n = s.unicode_len();
    if n == 6 {
        let f = fire_str();
        let mut i: usize = 0;
        let mut same = true;
        while i < 6 && same
            invariant
                i <= 6,
                s@.len() == 6,
                f@ == fire_text(),
                fire_text().len() == 6,
                same ==> forall|j: int| 0 <= j < i ==> s@[j] == fire_text()[j],
                !same ==> s@ != fire_text(),
            decreases 6 - i,
        {
            if s.get_char(i) != f.get_char(i) {
                same = false;
                proof {
                    assert(s@[i as int] != fire_text()[i as int]);
                }
            }
            i += 1;
        }
        if same {
            proof {
                assert(s@ =~= fire_text());
            }
            return Ok(Command::Fire);
        }
    }
    // Here the document is not the trigger; only a bind form can remain.
    if n < 26 {
        return Err(ProtocolError);
    }
    let b = bind_open_str();
    let mut i: usize = 0;
    while i < 24
        invariant
            i <= 24,
            s@.len() == n,
            n >= 26,
            b@ == bind_open(),
            bind_open().len() == 24,
            bind_close().len() == 2,
            s@ != fire_text(),
            forall|j: int| 0 <= j < i ==> s@[j] == bind_open()[j],
        decreases 24 - i,
    {
        if s.get_char(i) != b.get_char(i) {
            proof {
                assert(s@.subrange(0, 24)[i as int] != bind_open()[i as int]);
            }
            return Err(ProtocolError);
        }
        i += 1;
    }
    proof {
        assert(s@.subrange(0, 24) =~= bind_open());
    }
    if s.get_char(n - 2) != '"' || s.get_char(n - 1) != '}' {
        proof {
            assert(bind_close()[0] == '"' && bind_close()[1] == '}');
            assert(s@.subrange(n - 2, n as int)[0] == s@[n - 2]);
            assert(s@.subrange(n - 2, n as int)[1] == s@[n - 1]);
        }
        return Err(ProtocolError);
    }
    proof {
        assert(s@.subrange(n - 2, n as int) =~= bind_close());
    }
    let ghost mid = s@.subrange(24, n - 2);
    let end = n - 2;
    let mut key = String::new();
    let mut i2: usize = 24;
    let mut bad = false;
    while i2 < end && !bad
        invariant
            24 <= i2 <= end,
            end == n - 2,
            s@.len() == n,
            n >= 26,
            mid == s@.subrange(24, end as int),
            s@ != fire_text(),
            bind_open().len() == 24,
            bind_close().len() == 2,
            s@.subrange(0, 24) == bind_open(),
            s@.subrange(n - 2, n as int) == bind_close(),
            !bad ==> parse_escaped(mid) == opt_prepend(
                key@,
                parse_escaped(s@.subrange(i2 as int, end as int)),
            ),
            bad ==> parse_escaped(mid) is None,
        decreases end - i2,
    {
        let ghost rest = s@.subrange(i2 as int, end as int);
        let ch = s.get_char(i2);
        proof {
            assert(rest[0] == ch);
            assert(rest.len() == end - i2);
        }
        if ch == '"' {
            bad = true;
            i2 += 1;
        } else if ch == '\\' {
            if i2 + 1 < end {
                let ch2 = s.get_char(i2 + 1);
                proof {
                    assert(rest[1] == ch2);
                }
                if ch2 == '"' || ch2 == '\\' {
                    let ghost pre = key@;
                    push_char(&mut key, ch2);
                    proof {
                        assert(rest.skip(2) =~= s@.subrange(i2 + 2, end as int));
                        if parse_escaped(rest.skip(2)) is Some {
                            let t = parse_escaped(rest.skip(2))->Some_0;
                            assert(key@ + t =~= pre + (seq![ch2] + t));
                        }
                    }
                    i2 += 2;
                } else {
                    bad = true;
                    i2 += 1;
                }
            } else {
                bad = true;
                i2 += 1;
            }
        } else {
            let ghost pre = key@;
            push_char(&mut key, ch);
            proof {
                assert(rest.skip(1) =~= s@.subrange(i2 + 1, end as int));
                if parse_escaped(rest.skip(1)) is Some {
                    let t = parse_escaped(rest.skip(1))->Some_0;
                    assert(key@ + t =~= pre + (seq![ch] + t));
                }
            }
            i2 += 1;
        }
    }
    if bad {
        return Err(ProtocolError);
    }
    proof {
        assert(s@.subrange(i2 as int, end as int) =~= Seq::<char>::empty());
        assert(parse_escaped(Seq::<char>::empty()) == Some(Seq::<char>::empty()));
        assert(key@ + Seq::<char>::empty() =~= key@);
        assert(parse_escaped(mid) == Some(key@));
        assert(s@.len() != fire_text().len());
    }
    Ok(Command::Bind(key))
}

} // verus!
