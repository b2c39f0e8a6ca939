//! The JSON wire codec for chat frames.
//!
//! A frame travels as one text message shaped like
//! `{"chat_type":"TEXT","value":["hi"],"room_id":"main","user_id":"u1","id":7}`.
//! The grammar is defined here as specification functions: `spec_encode`
//! gives the canonical text of a frame, and `sp_frame` is the parser at the
//! specification level. The executable `encode_frame` and `parse_frame`
//! are proved to match them exactly.

use vstd::prelude::*;
use vstd::string::StrSliceExecFns;
use vstd::string::StringExecFns;

verus! {

/// The kind of a chat frame.
#[derive(Clone, Copy, PartialEq, Eq, Structural, Debug)]
pub enum ChatType {
    TYPING,
    TEXT,
    CONNECT,
    DISCONNECT,
}

/// One wire frame, as typed data. On inbound frames the `id` field is
/// whatever the client sent and is overwritten with the session's own
/// identity before the frame is relayed.
pub struct ChatMessage {
    pub chat_type: ChatType,
    pub value: Vec<String>,
    pub room_id: String,
    pub user_id: String,
    pub id: usize,
}

/// The mathematical content of a frame.
#[verifier::ext_equal]
pub ghost struct FrameView {
    pub kind: ChatType,
    pub value: Seq<Seq<char>>,
    pub room_id: Seq<char>,
    pub user_id: Seq<char>,
    pub id: usize,
}

impl View for ChatMessage {
    type V = FrameView;

    open spec fn view(&self) -> FrameView {
        FrameView {
            kind: self.chat_type,
            value: self.value.deep_view(),
            room_id: self.room_id@,
            user_id: self.user_id@,
            id: self.id,
        }
    }
}

/// The word a frame kind is written as on the wire.
pub open spec fn kind_word(k: ChatType) -> Seq<char> {
    match k {
        ChatType::TYPING => seq!['T', 'Y', 'P', 'I', 'N', 'G'],
        ChatType::TEXT => seq!['T', 'E', 'X', 'T'],
        ChatType::CONNECT => seq!['C', 'O', 'N', 'N', 'E', 'C', 'T'],
        ChatType::DISCONNECT => seq!['D', 'I', 'S', 'C', 'O', 'N', 'N', 'E', 'C', 'T'],
    }
}

/// How one character is written inside a quoted string: the quote, the
/// backslash and the three common control characters take a two-character
/// escape, everything else stands for itself.
pub open spec fn esc_char(c: char) -> Seq<char> {
    match c {
        '"' => seq!['\\', '"'],
        '\\' => seq!['\\', '\\'],
        '\n' => seq!['\\', 'n'],
        '\r' => seq!['\\', 'r'],
        '\t' => seq!['\\', 't'],
        _ => seq![c],
    }
}

/// The body of a quoted string: each character escaped in turn.
pub open spec fn spec_escape(s: Seq<char>) -> Seq<char>
    decreases s.len(),
{
    if s.len() == 0 {
        Seq::empty()
    } else {
        esc_char(s[0]) + spec_escape(s.drop_first())
    }
}

/// A quoted string: the escaped body between two quote characters.
pub open spec fn spec_string(s: Seq<char>) -> Seq<char> {
    seq!['"'] + spec_escape(s) + seq!['"']
}

/// The digit character for a value below ten.
pub open spec fn digit_char(d: int) -> char {
    if d == 0 {
        '0'
    } else if d == 1 {
        '1'
    } else if d == 2 {
        '2'
    } else if d == 3 {
        '3'
    } else if d == 4 {
        '4'
    } else if d == 5 {
        '5'
    } else if d == 6 {
        '6'
    } else if d == 7 {
        '7'
    } else if d == 8 {
        '8'
    } else {
        '9'
    }
}

/// A non-negative number written in decimal, most significant digit first.
pub open spec fn spec_num(n: int) -> Seq<char>
    recommends
        n >= 0,
    decreases n,
{
    if n < 10 {
        seq![digit_char(n)]
    } else {
        spec_num(n / 10) + seq![digit_char(n % 10)]
    }
}

/// The comma-separated quoted strings inside a value array.
pub open spec fn spec_values_inner(vs: Seq<Seq<char>>) -> Seq<char>
    decreases vs.len(),
{
    if vs.len() == 0 {
        Seq::empty()
    } else if vs.len() == 1 {
        spec_string(vs[0])
    } else {
        spec_string(vs[0]) + seq![','] + spec_values_inner(vs.drop_first())
    }
}

/// A value array: the strings between brackets.
pub open spec fn spec_values(vs: Seq<Seq<char>>) -> Seq<char> {
    seq!['['] + spec_values_inner(vs) + seq![']']
}

/// The canonical text of a frame: the five fields in a fixed order.
pub open spec fn spec_encode(m: FrameView) -> Seq<char> {
    "{\"chat_type\":\""@ + kind_word(m.kind) + "\",\"value\":"@ + spec_values(m.value)
        + ",\"room_id\":"@ + spec_string(m.room_id) + ",\"user_id\":"@ + spec_string(m.user_id)
        + ",\"id\":"@ + spec_num(m.id as int) + "}"@
}

// ---------------------------------------------------------------------
// The parser, at the specification level. Each piece consumes a prefix of
// the input and hands back what it read together with the rest.
// ---------------------------------------------------------------------

/// Consume an exact literal prefix.
pub open spec fn sp_lit(s: Seq<char>, lit: Seq<char>) -> Option<Seq<char>> {
    if lit.len() <= s.len() && s.subrange(0, lit.len() as int) == lit {
        Some(s.skip(lit.len() as int))
    } else {
        None
    }
}

/// Consume the body of a quoted string up to and including the closing
/// quote, undoing escapes. A backslash before anything but the five
/// escapable characters is malformed.
pub open spec fn sp_str_body(s: Seq<char>) -> Option<(Seq<char>, Seq<char>)>
    decreases s.len(),
{
    if s.len() == 0 {
        None
    } else if s[0] == '"' {
        Some((Seq::empty(), s.drop_first()))
    } else if s[0] == '\\' {
        if s.len() < 2 {
            None
        } else {
            let c = if s[1] == '"' {
                Some('"')
            } else if s[1] == '\\' {
                Some('\\')
            } else if s[1] == 'n' {
                Some('\n')
            } else if s[1] == 'r' {
                Some('\r')
            } else if s[1] == 't' {
                Some('\t')
            } else {
                None
            };
            match c {
                None => None,
                Some(c) => match sp_str_body(s.skip(2)) {
                    None => None,
                    Some((v, r)) => Some((seq![c] + v, r)),
                },
            }
        }
    } else {
        match sp_str_body(s.drop_first()) {
            None => None,
            Some((v, r)) => Some((seq![s[0]] + v, r)),
        }
    }
}

/// Consume a whole quoted string.
pub open spec fn sp_string(s: Seq<char>) -> Option<(Seq<char>, Seq<char>)> {
    if s.len() > 0 && s[0] == '"' {
        sp_str_body(s.drop_first())
    } else {
        None
    }
}

/// A successful string parse consumes at least the two quotes.
proof fn lemma_sp_str_body_consumes(s: Seq<char>)
    ensures
        sp_str_body(s) is Some ==> (sp_str_body(s)->0).1.len() < s.len(),
    decreases s.len(),
{
    if s.len() == 0 {
    } else if s[0] == '"' {
    } else if s[0] == '\\' {
        if s.len() >= 2 {
            lemma_sp_str_body_consumes(s.skip(2));
        }
    } else {
        lemma_sp_str_body_consumes(s.drop_first());
    }
}

/// A successful quoted-string parse leaves a strictly shorter rest.
proof fn lemma_sp_string_consumes(s: Seq<char>)
    ensures
        sp_string(s) is Some ==> (sp_string(s)->0).1.len() + 2 <= s.len(),
{
    if s.len() > 0 && s[0] == '"' {
        lemma_sp_str_body_consumes(s.drop_first());
    }
}

/// Consume one or more comma-separated quoted strings followed by the
/// closing bracket.
pub open spec fn sp_values_items(s: Seq<char>) -> Option<(Seq<Seq<char>>, Seq<char>)>
    decreases s.len(),
        via sp_values_items_dec
{
    match sp_string(s) {
        None => None,
        Some((v, r)) => {
            if r.len() == 0 {
                None
            } else if r[0] == ',' {
                match sp_values_items(r.drop_first()) {
                    None => None,
                    Some((vs, r2)) => Some((seq![v] + vs, r2)),
                }
            } else if r[0] == ']' {
                Some((seq![v], r.drop_first()))
            } else {
                None
            }
        },
    }
}

#[via_fn]
proof fn sp_values_items_dec(s: Seq<char>) {
    lemma_sp_string_consumes(s);
}

/// Consume a whole value array, brackets included.
pub open spec fn sp_values(s: Seq<char>) -> Option<(Seq<Seq<char>>, Seq<char>)> {
    if s.len() >= 2 && s[0] == '[' {
        if s[1] == ']' {
            Some((Seq::empty(), s.skip(2)))
        } else {
            sp_values_items(s.drop_first())
        }
    } else {
        None
    }
}

/// Whether a character is a decimal digit.
pub open spec fn is_digit(c: char) -> bool {
    c == '0' || c == '1' || c == '2' || c == '3' || c == '4' || c == '5' || c == '6' || c == '7'
        || c == '8' || c == '9'
}

/// The value of a digit character.
pub open spec fn digit_val(c: char) -> int {
    if c == '0' {
        0
    } else if c == '1' {
        1
    } else if c == '2' {
        2
    } else if c == '3' {
        3
    } else if c == '4' {
        4
    } else if c == '5' {
        5
    } else if c == '6' {
        6
    } else if c == '7' {
        7
    } else if c == '8' {
        8
    } else {
        9
    }
}

/// How many leading digits the input has.
pub open spec fn digit_run_len(s: Seq<char>) -> int
    decreases s.len(),
{
    if s.len() == 0 || !is_digit(s[0]) {
        0
    } else {
        1 + digit_run_len(s.drop_first())
    }
}

/// The value of a digit sequence read in decimal.
pub open spec fn digits_val(s: Seq<char>) -> int
    decreases s.len(),
{
    if s.len() == 0 {
        0
    } else {
        digits_val(s.drop_last()) * 10 + digit_val(s.last())
    }
}

/// Consume a decimal number. The run of digits must be non-empty, at most
/// eighteen characters long (so it always fits the machine word), and its
/// value must fit `usize`.
pub open spec fn sp_num(s: Seq<char>) -> Option<(usize, Seq<char>)> {
    let n = digit_run_len(s);
    if 1 <= n <= 18 && digits_val(s.take(n)) <= usize::MAX {
        Some((digits_val(s.take(n)) as usize, s.skip(n)))
    } else {
        None
    }
}

/// Consume the kind word together with its closing quote.
pub open spec fn sp_kind(s: Seq<char>) -> Option<(ChatType, Seq<char>)> {
    if sp_lit(s, kind_word(ChatType::TYPING) + seq!['"']) is Some {
        Some((ChatType::TYPING, sp_lit(s, kind_word(ChatType::TYPING) + seq!['"'])->0))
    } else if sp_lit(s, kind_word(ChatType::TEXT) + seq!['"']) is Some {
        Some((ChatType::TEXT, sp_lit(s, kind_word(ChatType::TEXT) + seq!['"'])->0))
    } else if sp_lit(s, kind_word(ChatType::CONNECT) + seq!['"']) is Some {
        Some((ChatType::CONNECT, sp_lit(s, kind_word(ChatType::CONNECT) + seq!['"'])->0))
    } else if sp_lit(s, kind_word(ChatType::DISCONNECT) + seq!['"']) is Some {
        Some((ChatType::DISCONNECT, sp_lit(s, kind_word(ChatType::DISCONNECT) + seq!['"'])->0))
    } else {
        None
    }
}

// ---------------------------------------------------------------------
// Executable encoding.
// ---------------------------------------------------------------------

/// Escaping distributes over appending one character at the end.
proof fn lemma_escape_push(s: Seq<char>, c: char)
    ensures
        spec_escape(s.push(c)) == spec_escape(s) + esc_char(c),
    decreases s.len(),
{
    reveal_with_fuel(spec_escape, 3);
    if s.len() == 0 {
        assert(s.push(c).drop_first() =~= Seq::<char>::empty());
        assert(spec_escape(s.push(c)) =~= spec_escape(s) + esc_char(c));
    } else {
        assert(s.push(c).drop_first() =~= s.drop_first().push(c));
        lemma_escape_push(s.drop_first(), c);
        assert(s.push(c)[0] == s[0]);
        assert(spec_escape(s.push(c)) == esc_char(s[0]) + (spec_escape(s.drop_first())
            + esc_char(c)));
        assert(esc_char(s[0]) + (spec_escape(s.drop_first()) + esc_char(c)) =~= (esc_char(s[0])
            + spec_escape(s.drop_first())) + esc_char(c));
    }
}

/// How the inside of a value array grows when one more string is added.
proof fn lemma_values_inner_push(vs: Seq<Seq<char>>, v: Seq<char>)
    ensures
        vs.len() == 0 ==> spec_values_inner(vs.push(v)) == spec_string(v),
        vs.len() >= 1 ==> spec_values_inner(vs.push(v)) == spec_values_inner(vs) + seq![',']
            + spec_string(v),
    decreases vs.len(),
{
    reveal_with_fuel(spec_values_inner, 3);
    if vs.len() == 0 {
        assert(vs.push(v)[0] == v);
    } else if vs.len() == 1 {
        assert(vs.push(v).drop_first() =~= seq![v]);
        assert(spec_values_inner(vs.push(v)) =~= spec_values_inner(vs) + seq![',']
            + spec_string(v));
    } else {
        assert(vs.push(v).drop_first() =~= vs.drop_first().push(v));
        lemma_values_inner_push(vs.drop_first(), v);
        assert(vs.push(v)[0] == vs[0]);
        assert(spec_values_inner(vs.push(v)) == spec_string(vs[0]) + seq![','] + ((
        spec_values_inner(vs.drop_first()) + seq![',']) + spec_string(v)));
        assert(spec_string(vs[0]) + seq![','] + ((spec_values_inner(vs.drop_first()) + seq![','])
            + spec_string(v)) =~= ((spec_string(vs[0]) + seq![','] + spec_values_inner(
            vs.drop_first(),
        )) + seq![',']) + spec_string(v));
    }
}

/// Whether two string slices hold the same characters.
pub(crate) fn str_eq(a: &str, b: &str) -> (r: bool)
    ensures
        r == (a@ == b@),
{
    let n = a.unicode_len();
    if n != b.unicode_len() {
        return false;
    }
    let mut i: usize = 0;
    while i < n
        invariant
            n == a@.len(),
            n == b@.len(),
            i <= n,
            forall|k: int| 0 <= k < i ==> a@[k] == b@[k],
        decreases n - i,
    {
        if a.get_char(i) != b.get_char(i) {
            return false;
        }
        i = i + 1;
    }
    proof {
        assert(a@ =~= b@);
    }
    true
}

/// The one-character string for a digit value.
fn digit_str(d: usize) -> (r: &'static str)
    requires
        d < 10,
    ensures
        r@ == seq![digit_char(d as int)],
{
    match d {
        0 => {
            proof {
                reveal_strlit("0");
                assert("0"@ =~= seq![digit_char(0)]);
            }
            "0"
        },
        1 => {
            proof {
                reveal_strlit("1");
                assert("1"@ =~= seq![digit_char(1)]);
            }
            "1"
        },
        2 => {
            proof {
                reveal_strlit("2");
                assert("2"@ =~= seq![digit_char(2)]);
            }
            "2"
        },
        3 => {
            proof {
                reveal_strlit("3");
                assert("3"@ =~= seq![digit_char(3)]);
            }
            "3"
        },
        4 => {
            proof {
                reveal_strlit("4");
                assert("4"@ =~= seq![digit_char(4)]);
            }
            "4"
        },
        5 => {
            proof {
                reveal_strlit("5");
                assert("5"@ =~= seq![digit_char(5)]);
            }
            "5"
        },
        6 => {
            proof {
                reveal_strlit("6");
                assert("6"@ =~= seq![digit_char(6)]);
            }
            "6"
        },
        7 => {
            proof {
                reveal_strlit("7");
                assert("7"@ =~= seq![digit_char(7)]);
            }
            "7"
        },
        8 => {
            proof {
                reveal_strlit("8");
                assert("8"@ =~= seq![digit_char(8)]);
            }
            "8"
        },
        _ => {
            proof {
                reveal_strlit("9");
                assert("9"@ =~= seq![digit_char(9)]);
            }
            "9"
        },
    }
}

/// Write a number the way `spec_num` spells it.
pub fn usize_to_string(n: usize) -> (r: String)
    ensures
        r@ == spec_num(n as int),
    decreases n,
{
    if n < 10 {
        String::from_str(digit_str(n))
    } else {
        let mut s = usize_to_string(n / 10);
        s.append(digit_str(n % 10));
        s
    }
}

/// The wire word for a frame kind.
fn kind_str(k: ChatType) -> (r: &'static str)
    ensures
        r@ == kind_word(k),
{
    match k {
        ChatType::TYPING => {
            proof {
                reveal_strlit("TYPING");
                assert("TYPING"@ =~= kind_word(ChatType::TYPING));
            }
            "TYPING"
        },
        ChatType::TEXT => {
            proof {
                reveal_strlit("TEXT");
                assert("TEXT"@ =~= kind_word(ChatType::TEXT));
            }
            "TEXT"
        },
        ChatType::CONNECT => {
            proof {
                reveal_strlit("CONNECT");
                assert("CONNECT"@ =~= kind_word(ChatType::CONNECT));
            }
            "CONNECT"
        },
        ChatType::DISCONNECT => {
            proof {
                reveal_strlit("DISCONNECT");
                assert("DISCONNECT"@ =~= kind_word(ChatType::DISCONNECT));
            }
            "DISCONNECT"
        },
    }
}

/// Append the escaped body of a string.
fn append_escaped(out: &mut String, s: &str)
    ensures
        final(out)@ == old(out)@ + spec_escape(s@),
{
    let n = s.unicode_len();
    let mut i: usize = 0;
    proof {
        assert(s@.take(0) =~= Seq::<char>::empty());
        assert(old(out)@ + spec_escape(s@.take(0)) =~= old(out)@);
    }
    while i < n
        invariant
            n == s@.len(),
            i <= n,
            out@ == old(out)@ + spec_escape(s@.take(i as int)),
        decreases n - i,
    {
        let c = s.get_char(i);
        proof {
            assert(s@.take(i as int).push(c) =~= s@.take(i + 1 as int));
            lemma_escape_push(s@.take(i as int), c);
        }
        if c == '"' {
            proof {
                reveal_strlit("\\\"");
                assert("\\\""@ =~= seq!['\\', '"']);
            }
            out.append("\\\"");
        } else if c == '\\' {
            proof {
                reveal_strlit("\\\\");
                assert("\\\\"@ =~= seq!['\\', '\\']);
            }
            out.append("\\\\");
        } else if c == '\n' {
            proof {
                reveal_strlit("\\n");
                assert("\\n"@ =~= seq!['\\', 'n']);
            }
            out.append("\\n");
        } else if c == '\r' {
            proof {
                reveal_strlit("\\r");
                assert("\\r"@ =~= seq!['\\', 'r']);
            }
            out.append("\\r");
        } else if c == '\t' {
            proof {
                reveal_strlit("\\t");
                assert("\\t"@ =~= seq!['\\', 't']);
            }
            out.append("\\t");
        } else {
            let piece = s.substring_char(i, i + 1);
            proof {
                assert(piece@ =~= seq![c]);
                assert(esc_char(c) == seq![c]);
            }
            out.append(piece);
        }
        proof {
            assert(out@ =~= old(out)@ + spec_escape(s@.take(i + 1 as int)));
        }
        i = i + 1;
    }
    proof {
        assert(s@.take(n as int) =~= s@);
    }
}

/// Append a quoted, escaped string.
fn append_string(out: &mut String, s: &str)
    ensures
        final(out)@ == old(out)@ + spec_string(s@),
{
    proof {
        reveal_strlit("\"");
        assert("\""@ =~= seq!['"']);
    }
    out.append("\"");
    append_escaped(out, s);
    out.append("\"");
    proof {
        assert(out@ =~= old(out)@ + spec_string(s@));
    }
}

/// Append a whole value array.
fn append_values(out: &mut String, vs: &Vec<String>)
    ensures
        final(out)@ == old(out)@ + spec_values(vs.deep_view()),
{
    proof {
        reveal_strlit("[");
        reveal_strlit("]");
        reveal_strlit(",");
        assert("["@ =~= seq!['[']);
        assert("]"@ =~= seq![']']);
        assert(","@ =~= seq![',']);
    }
    out.append("[");
    let n = vs.len();
    let mut i: usize = 0;
    proof {
        assert(vs.deep_view().take(0) =~= Seq::<Seq<char>>::empty());
        assert(out@ =~= old(out)@ + seq!['['] + spec_values_inner(vs.deep_view().take(0)));
    }
    while i < n
        invariant
            n == vs.len(),
            i <= n,
            vs.deep_view().len() == n,
            forall|k: int| 0 <= k < n ==> vs.deep_view()[k] == vs@[k]@,
            out@ == old(out)@ + seq!['['] + spec_values_inner(vs.deep_view().take(i as int)),
        decreases n - i,
    {
        if i > 0 {
            proof {
                reveal_strlit(",");
            }
            out.append(",");
        }
        append_string(out, vs[i].as_str());
        proof {
            assert(vs.deep_view().take(i as int).push(vs@[i as int]@) =~= vs.deep_view().take(
                i + 1 as int,
            ));
            lemma_values_inner_push(vs.deep_view().take(i as int), vs@[i as int]@);
            assert(out@ =~= old(out)@ + seq!['['] + spec_values_inner(
                vs.deep_view().take(i + 1 as int),
            ));
        }
        i = i + 1;
    }
    out.append("]");
    proof {
        assert(vs.deep_view().take(n as int) =~= vs.deep_view());
        assert(out@ =~= old(out)@ + spec_values(vs.deep_view()));
    }
}

/// Write a frame as its canonical wire text.
pub fn encode_frame(m: &ChatMessage) -> (r: String)
    ensures
        r@ == spec_encode(m@),
{
    let mut out = String::new();
    out.append("{\"chat_type\":\"");
    out.append(kind_str(m.chat_type));
    out.append("\",\"value\":");
    append_values(&mut out, &m.value);
    out.append(",\"room_id\":");
    append_string(&mut out, m.room_id.as_str());
    out.append(",\"user_id\":");
    append_string(&mut out, m.user_id.as_str());
    out.append(",\"id\":");
    let num = usize_to_string(m.id);
    out.append(num.as_str());
    out.append("}");
    proof {
        assert(out@ =~= spec_encode(m@));
    }
    out
}

/// Parse a whole frame. The five fields come in a fixed order and the
/// text must hold nothing else.
pub open spec fn sp_frame(s: Seq<char>) -> Option<FrameView> {
    match sp_lit(s, "{\"chat_type\":\""@) {
        None => None,
        Some(r) => match sp_kind(r) {
            None => None,
            Some((kind, r)) => match sp_lit(r, ",\"value\":"@) {
                None => None,
                Some(r) => match sp_values(r) {
                    None => None,
                    Some((value, r)) => match sp_lit(r, ",\"room_id\":"@) {
                        None => None,
                        Some(r) => match sp_string(r) {
                            None => None,
                            Some((room_id, r)) => match sp_lit(r, ",\"user_id\":"@) {
                                None => None,
                                Some(r) => match sp_string(r) {
                                    None => None,
                                    Some((user_id, r)) => match sp_lit(r, ",\"id\":"@) {
                                        None => None,
                                        Some(r) => match sp_num(r) {
                                            None => None,
                                            Some((id, r)) => {
                                                if r == seq!['}'] {
                                                    Some(FrameView {
                                                        kind,
                                                        value,
                                                        room_id,
                                                        user_id,
                                                        id,
                                                    })
                                                } else {
                                                    None
                                                }
                                            },
                                        },
                                    },
                                },
                            },
                        },
                    },
                },
            },
        },
    }
}

// ---------------------------------------------------------------------
// Executable parsing, proved to agree with the specification parser.
// ---------------------------------------------------------------------

/// Ten to the `n`.
spec fn pow10(n: nat) -> int
    decreases n,
{
    if n == 0 {
        1
    } else {
        10 * pow10((n - 1) as nat)
    }
}

proof fn lemma_pow10_pos(n: nat)
    ensures
        1 <= pow10(n),
    decreases n,
{
    if n > 0 {
        lemma_pow10_pos((n - 1) as nat);
    }
}

proof fn lemma_pow10_mono(a: nat, b: nat)
    requires
        a <= b,
    ensures
        pow10(a) <= pow10(b),
        1 <= pow10(a),
    decreases b,
{
    lemma_pow10_pos(a);
    if a < b {
        lemma_pow10_mono(a, (b - 1) as nat);
    }
}

/// A run of digits reads to a value below ten to its length.
proof fn lemma_digits_val_bound(d: Seq<char>)
    requires
        forall|k: int| 0 <= k < d.len() ==> is_digit(#[trigger] d[k]),
    ensures
        0 <= digits_val(d) < pow10(d.len() as nat),
    decreases d.len(),
{
    if d.len() > 0 {
        lemma_digits_val_bound(d.drop_last());
        assert(is_digit(d.last()));
        assert(digit_val(d.last()) <= 9);
    }
}

/// The length of the leading digit run, characterized by its end.
proof fn lemma_digit_run(s: Seq<char>, n: int)
    requires
        0 <= n <= s.len(),
        forall|k: int| 0 <= k < n ==> is_digit(#[trigger] s[k]),
        n == s.len() || !is_digit(s[n]),
    ensures
        digit_run_len(s) == n,
    decreases n,
{
    if n == 0 {
    } else {
        assert(is_digit(s[0]));
        lemma_digit_run(s.drop_first(), n - 1);
    }
}

/// Prefix a parsed piece of string onto a parser outcome.
spec fn opt_prepend(p: Seq<char>, o: Option<(Seq<char>, Seq<char>)>) -> Option<
    (Seq<char>, Seq<char>),
> {
    match o {
        None => None,
        Some((v, r)) => Some((p + v, r)),
    }
}

proof fn lemma_opt_prepend_assoc(a: Seq<char>, b: Seq<char>, o: Option<(Seq<char>, Seq<char>)>)
    ensures
        opt_prepend(a, opt_prepend(b, o)) == opt_prepend(a + b, o),
{
    match o {
        None => {},
        Some((v, r)) => {
            assert(a + (b + v) =~= (a + b) + v);
        },
    }
}

/// Prefix parsed values onto a value-list parser outcome.
spec fn opt_prepend_vals(p: Seq<Seq<char>>, o: Option<(Seq<Seq<char>>, Seq<char>)>)
    -> Option<(Seq<Seq<char>>, Seq<char>)> {
    match o {
        None => None,
        Some((v, r)) => Some((p + v, r)),
    }
}

proof fn lemma_opt_prepend_vals_assoc(
    a: Seq<Seq<char>>,
    b: Seq<Seq<char>>,
    o: Option<(Seq<Seq<char>>, Seq<char>)>,
)
    ensures
        opt_prepend_vals(a, opt_prepend_vals(b, o)) == opt_prepend_vals(a + b, o),
{
    match o {
        None => {},
        Some((v, r)) => {
            assert(a + (b + v) =~= (a + b) + v);
        },
    }
}

/// Consume `lit` at position `i`, handing back the index just past it.
fn eat_lit(s: &str, i: usize, lit: &str) -> (r: Option<usize>)
    requires
        i <= s@.len(),
    ensures
        r is None ==> sp_lit(s@.skip(i as int), lit@) is None,
        r is Some ==> i <= r->0 <= s@.len() && r->0 == i + lit@.len() && sp_lit(
            s@.skip(i as int),
            lit@,
        ) == Some(s@.skip(r->0 as int)),
{
    let slen = s.unicode_len();
    let litlen = lit.unicode_len();
    if slen - i < litlen {
        return None;
    }
    let mut k: usize = 0;
    while k < litlen
        invariant
            i <= s@.len(),
            slen == s@.len(),
            litlen == lit@.len(),
            litlen <= slen - i,
            k <= litlen,
            forall|t: int| 0 <= t < k ==> s@[i + t] == lit@[t],
        decreases litlen - k,
    {
        if s.get_char(i + k) != lit.get_char(k) {
            proof {
                assert(s@.skip(i as int)[k as int] != lit@[k as int]);
                assert(s@.skip(i as int).subrange(0, lit@.len() as int) != lit@);
            }
            return None;
        }
        k = k + 1;
    }
    proof {
        assert(s@.skip(i as int).subrange(0, lit@.len() as int) =~= lit@);
        assert(s@.skip(i as int).skip(lit@.len() as int) =~= s@.skip(i + lit@.len()));
    }
    Some(i + litlen)
}

/// Parse a quoted string at position `i`.
#[verifier::loop_isolation(false)]
fn parse_string_at(s: &str, i: usize) -> (r: Option<(String, usize)>)
    requires
        i <= s@.len(),
    ensures
        r is None ==> sp_string(s@.skip(i as int)) is None,
        r is Some ==> i <= (r->0).1 <= s@.len() && sp_string(s@.skip(i as int)) == Some(
            (((r->0).0)@, s@.skip((r->0).1 as int)),
        ),
{
    let slen = s.unicode_len();
    if i >= slen || s.get_char(i) != '"' {
        return None;
    }
    proof {
        assert(s@.skip(i as int)[0] == s@[i as int]);
        assert(s@.skip(i as int).drop_first() =~= s@.skip(i + 1));
    }
    let mut j: usize = i + 1;
    let mut out = String::new();
    loop
        invariant
            slen == s@.len(),
            i + 1 <= j <= slen,
            s@.skip(i as int).len() > 0 && s@.skip(i as int)[0] == '"',
            sp_str_body(s@.skip(i + 1)) == opt_prepend(out@, sp_str_body(s@.skip(j as int))),
        decreases slen - j,
    {
        if j >= slen {
            proof {
                assert(s@.skip(j as int).len() == 0);
            }
            return None;
        }
        let c = s.get_char(j);
        proof {
            assert(s@.skip(j as int)[0] == c);
            assert(s@.skip(j as int).drop_first() =~= s@.skip(j + 1));
        }
        if c == '"' {
            proof {
                assert(sp_str_body(s@.skip(j as int)) == Some(
                    (Seq::<char>::empty(), s@.skip(j + 1)),
                ));
                assert(out@ + Seq::<char>::empty() =~= out@);
            }
            return Some((out, j + 1));
        } else if c == '\\' {
            if j + 1 >= slen {
                proof {
                    assert(s@.skip(j as int).len() < 2);
                }
                return None;
            }
            let c2 = s.get_char(j + 1);
            proof {
                assert(s@.skip(j as int)[1] == c2);
                assert(s@.skip(j as int).skip(2) =~= s@.skip(j + 2));
            }
            let ghost prev = out@;
            if c2 == '"' {
                proof {
                    reveal_strlit("\"");
                    assert("\""@ =~= seq!['"']);
                }
                out.append("\"");
                proof {
                    assert(out@ =~= prev + seq!['"']);
                }
            } else if c2 == '\\' {
                proof {
                    reveal_strlit("\\");
                    assert("\\"@ =~= seq!['\\']);
                }
                out.append("\\");
                proof {
                    assert(out@ =~= prev + seq!['\\']);
                }
            } else if c2 == 'n' {
                proof {
                    reveal_strlit("\n");
                    assert("\n"@ =~= seq!['\n']);
                }
                out.append("\n");
                proof {
                    assert(out@ =~= prev + seq!['\n']);
                }
            } else if c2 == 'r' {
                proof {
                    reveal_strlit("\r");
                    assert("\r"@ =~= seq!['\r']);
                }
                out.append("\r");
                proof {
                    assert(out@ =~= prev + seq!['\r']);
                }
            } else if c2 == 't' {
                proof {
                    reveal_strlit("\t");
                    assert("\t"@ =~= seq!['\t']);
                }
                out.append("\t");
                proof {
                    assert(out@ =~= prev + seq!['\t']);
                }
            } else {
                return None;
            }
            proof {
                let d = out@.last();
                assert(out@ =~= prev + seq![d]);
                assert(sp_str_body(s@.skip(j as int)) == opt_prepend(
                    seq![d],
                    sp_str_body(s@.skip(j + 2)),
                ));
                lemma_opt_prepend_assoc(prev, seq![d], sp_str_body(s@.skip(j + 2)));
            }
            j = j + 2;
        } else {
            let ghost prev = out@;
            let piece = s.substring_char(j, j + 1);
            proof {
                assert(piece@ =~= seq![c]);
            }
            out.append(piece);
            proof {
                assert(out@ =~= prev + seq![c]);
                assert(sp_str_body(s@.skip(j as int)) == opt_prepend(
                    seq![c],
                    sp_str_body(s@.skip(j + 1)),
                ));
                lemma_opt_prepend_assoc(prev, seq![c], sp_str_body(s@.skip(j + 1)));
            }
            j = j + 1;
        }
    }
}

/// Parse a value array at position `i`.
#[verifier::loop_isolation(false)]
fn parse_values_at(s: &str, i: usize) -> (r: Option<(Vec<String>, usize)>)
    requires
        i <= s@.len(),
    ensures
        r is None ==> sp_values(s@.skip(i as int)) is None,
        r is Some ==> i <= (r->0).1 <= s@.len() && sp_values(s@.skip(i as int)) == Some(
            (((r->0).0).deep_view(), s@.skip((r->0).1 as int)),
        ),
{
    let slen = s.unicode_len();
    if i >= slen || s.get_char(i) != '[' {
        proof {
            if i < slen {
                assert(s@.skip(i as int)[0] == s@[i as int]);
            }
        }
        return None;
    }
    if i + 1 >= slen {
        proof {
            assert(s@.skip(i as int).len() < 2);
        }
        return None;
    }
    proof {
        assert(s@.skip(i as int)[0] == s@[i as int]);
        assert(s@.skip(i as int)[1] == s@[i + 1]);
        assert(s@.skip(i as int).skip(2) =~= s@.skip(i + 2));
        assert(s@.skip(i as int).drop_first() =~= s@.skip(i + 1));
    }
    if s.get_char(i + 1) == ']' {
        let empty: Vec<String> = Vec::new();
        proof {
            assert(empty.deep_view() =~= Seq::<Seq<char>>::empty());
        }
        return Some((empty, i + 2));
    }
    let mut acc: Vec<String> = Vec::new();
    let mut j: usize = i + 1;
    proof {
        assert(acc.deep_view() =~= Seq::<Seq<char>>::empty());
        assert(opt_prepend_vals(acc.deep_view(), sp_values_items(s@.skip(j as int)))
            =~~= sp_values_items(s@.skip(i + 1)));
    }
    loop
        invariant
            slen == s@.len(),
            i + 2 <= slen,
            i + 1 <= j <= slen,
            s@.skip(i as int).len() >= 2 && s@.skip(i as int)[0] == '[' && s@.skip(i as int)[1]
                != ']',
            sp_values_items(s@.skip(i + 1)) == opt_prepend_vals(
                acc.deep_view(),
                sp_values_items(s@.skip(j as int)),
            ),
        decreases slen - j,
    {
        let parsed = parse_string_at(s, j);
        match parsed {
            None => {
                return None;
            },
            Some((v, j2)) => {
                if j2 >= slen {
                    proof {
                        assert(s@.skip(j2 as int).len() == 0);
                    }
                    return None;
                }
                let c = s.get_char(j2);
                proof {
                    assert(s@.skip(j2 as int)[0] == c);
                    assert(s@.skip(j2 as int).drop_first() =~= s@.skip(j2 + 1));
                }
                if c == ',' {
                    let ghost prevdeep = acc.deep_view();
                    let ghost vv = v@;
                    acc.push(v);
                    proof {
                        assert(acc.deep_view() =~= prevdeep.push(vv));
                        assert(prevdeep.push(vv) =~= prevdeep + seq![vv]);
                        assert(sp_values_items(s@.skip(j as int)) == opt_prepend_vals(
                            seq![vv],
                            sp_values_items(s@.skip(j2 + 1)),
                        ));
                        lemma_opt_prepend_vals_assoc(
                            prevdeep,
                            seq![vv],
                            sp_values_items(s@.skip(j2 + 1)),
                        );
                    }
                    j = j2 + 1;
                } else if c == ']' {
                    let ghost prevdeep = acc.deep_view();
                    let ghost vv = v@;
                    acc.push(v);
                    proof {
                        assert(acc.deep_view() =~= prevdeep.push(vv));
                        assert(prevdeep.push(vv) =~= prevdeep + seq![vv]);
                        assert(sp_values_items(s@.skip(j as int)) == Some(
                            (seq![vv], s@.skip(j2 + 1)),
                        ));
                    }
                    return Some((acc, j2 + 1));
                } else {
                    return None;
                }
            },
        }
    }
}

/// Whether a character is a decimal digit, executably.
fn is_digit_char(c: char) -> (b: bool)
    ensures
        b == is_digit(c),
{
    c == '0' || c == '1' || c == '2' || c == '3' || c == '4' || c == '5' || c == '6' || c == '7'
        || c == '8' || c == '9'
}

/// The numeric value of a digit character.
fn digit_val_char(c: char) -> (d: u64)
    requires
        is_digit(c),
    ensures
        d == digit_val(c),
{
    if c == '0' {
        0
    } else if c == '1' {
        1
    } else if c == '2' {
        2
    } else if c == '3' {
        3
    } else if c == '4' {
        4
    } else if c == '5' {
        5
    } else if c == '6' {
        6
    } else if c == '7' {
        7
    } else if c == '8' {
        8
    } else {
        9
    }
}

/// Parse a decimal number at position `i`.
#[verifier::loop_isolation(false)]
fn parse_num_at(s: &str, i: usize) -> (r: Option<(usize, usize)>)
    requires
        i <= s@.len(),
    ensures
        r is None ==> sp_num(s@.skip(i as int)) is None,
        r is Some ==> i <= (r->0).1 <= s@.len() && sp_num(s@.skip(i as int)) == Some(
            ((r->0).0, s@.skip((r->0).1 as int)),
        ),
{
    let slen = s.unicode_len();
    let mut j: usize = i;
    while j < slen && is_digit_char(s.get_char(j))
        invariant
            slen == s@.len(),
            i <= j <= slen,
            forall|k: int| i <= k < j ==> is_digit(#[trigger] s@[k]),
        decreases slen - j,
    {
        j = j + 1;
    }
    proof {
        assert forall|k: int| 0 <= k < j - i implies is_digit(#[trigger] s@.skip(i as int)[k]) by {
            assert(s@.skip(i as int)[k] == s@[i + k]);
        }
        if j < slen {
            assert(s@.skip(i as int)[j - i] == s@[j as int]);
        }
        lemma_digit_run(s@.skip(i as int), j - i);
    }
    let n = j - i;
    if n == 0 || n > 18 {
        return None;
    }
    proof {
        lemma_pow10_mono(0, 17);
        reveal_with_fuel(pow10, 19);
        assert(pow10(17) == 100000000000000000int);
    }
    let mut val: u64 = 0;
    let mut k: usize = i;
    proof {
        assert(s@.subrange(i as int, i as int) =~= Seq::<char>::empty());
    }
    while k < j
        invariant
            slen == s@.len(),
            i <= k <= j <= slen,
            j - i <= 18,
            forall|t: int| i <= t < j ==> is_digit(#[trigger] s@[t]),
            val == digits_val(s@.subrange(i as int, k as int)),
            pow10(17) == 100000000000000000int,
        decreases j - k,
    {
        let c = s.get_char(k);
        let d = digit_val_char(c);
        proof {
            let pre = s@.subrange(i as int, k as int);
            assert forall|t: int| 0 <= t < pre.len() implies is_digit(#[trigger] pre[t]) by {
                assert(pre[t] == s@[i + t]);
            }
            lemma_digits_val_bound(pre);
            lemma_pow10_mono(pre.len() as nat, 17);
            assert(s@.subrange(i as int, k + 1).drop_last() =~= pre);
            assert(s@.subrange(i as int, k + 1).last() == s@[k as int]);
        }
        val = val * 10 + d;
        k = k + 1;
    }
    proof {
        assert(s@.subrange(i as int, j as int) =~= s@.skip(i as int).take(j - i));
        let run = s@.skip(i as int).take(j - i);
        assert forall|t: int| 0 <= t < run.len() implies is_digit(#[trigger] run[t]) by {
            assert(run[t] == s@[i + t]);
        }
        lemma_digits_val_bound(run);
        assert(s@.skip(i as int).skip(j - i) =~= s@.skip(j as int));
    }
    if val > usize::MAX as u64 {
        return None;
    }
    Some((val as usize, j))
}

/// Parse the kind word (with its closing quote) at position `i`.
fn parse_kind_at(s: &str, i: usize) -> (r: Option<(ChatType, usize)>)
    requires
        i <= s@.len(),
    ensures
        r is None ==> sp_kind(s@.skip(i as int)) is None,
        r is Some ==> i <= (r->0).1 <= s@.len() && sp_kind(s@.skip(i as int)) == Some(
            ((r->0).0, s@.skip((r->0).1 as int)),
        ),
{
    proof {
        reveal_strlit("TYPING\"");
        reveal_strlit("TEXT\"");
        reveal_strlit("CONNECT\"");
        reveal_strlit("DISCONNECT\"");
        assert("TYPING\""@ =~= kind_word(ChatType::TYPING) + seq!['"']);
        assert("TEXT\""@ =~= kind_word(ChatType::TEXT) + seq!['"']);
        assert("CONNECT\""@ =~= kind_word(ChatType::CONNECT) + seq!['"']);
        assert("DISCONNECT\""@ =~= kind_word(ChatType::DISCONNECT) + seq!['"']);
    }
    if let Some(j) = eat_lit(s, i, "TYPING\"") {
        return Some((ChatType::TYPING, j));
    }
    if let Some(j) = eat_lit(s, i, "TEXT\"") {
        return Some((ChatType::TEXT, j));
    }
    if let Some(j) = eat_lit(s, i, "CONNECT\"") {
        return Some((ChatType::CONNECT, j));
    }
    if let Some(j) = eat_lit(s, i, "DISCONNECT\"") {
        return Some((ChatType::DISCONNECT, j));
    }
    None
}

/// Read a frame back from its wire text. Exactly the texts the
/// specification parser accepts are accepted, and the parsed frame is
/// the one the specification parser reads.
pub fn parse_frame(s: &str) -> (r: Option<ChatMessage>)
    ensures
        (r is Some) == (sp_frame(s@) is Some),
        r is Some ==> (r->0)@ == sp_frame(s@)->0,
{
    proof {
        assert(s@.skip(0) =~= s@);
    }
    let j = match eat_lit(s, 0, "{\"chat_type\":\"") {
        Some(j) => j,
        None => {
            return None;
        },
    };
    let (kind, j) = match parse_kind_at(s, j) {
        Some(p) => p,
        None => {
            return None;
        },
    };
    let j = match eat_lit(s, j, ",\"value\":") {
        Some(j) => j,
        None => {
            return None;
        },
    };
    let (value, j) = match parse_values_at(s, j) {
        Some(p) => p,
        None => {
            return None;
        },
    };
    let j = match eat_lit(s, j, ",\"room_id\":") {
        Some(j) => j,
        None => {
            return None;
        },
    };
    let (room_id, j) = match parse_string_at(s, j) {
        Some(p) => p,
        None => {
            return None;
        },
    };
    let j = match eat_lit(s, j, ",\"user_id\":") {
        Some(j) => j,
        None => {
            return None;
        },
    };
    let (user_id, j) = match parse_string_at(s, j) {
        Some(p) => p,
        None => {
            return None;
        },
    };
    let j = match eat_lit(s, j, ",\"id\":") {
        Some(j) => j,
        None => {
            return None;
        },
    };
    let (id, j) = match parse_num_at(s, j) {
        Some(p) => p,
        None => {
            return None;
        },
    };
    proof {
        reveal_strlit("}");
        assert("}"@ =~= seq!['}']);
    }
    let tail = eat_lit(s, j, "}");
    let slen = s.unicode_len();
    if tail.is_none() || j + 1 != slen {
        proof {
            if sp_lit(s@.skip(j as int), "}"@) is Some {
                assert(s@.skip(j as int).len() == slen - j);
                assert(s@.skip(j as int) != seq!['}']);
            } else {
                if s@.skip(j as int) == seq!['}'] {
                    assert(s@.skip(j as int).subrange(0, 1) =~= seq!['}']);
                }
            }
        }
        return None;
    }
    proof {
        assert(s@.skip(j as int).len() == 1);
        assert(s@.skip(j as int) =~= seq!['}']);
    }
    let m = ChatMessage { chat_type: kind, value, room_id, user_id, id };
    proof {
        assert(m@ =~~= sp_frame(s@)->0);
    }
    Some(m)
}

// ---------------------------------------------------------------------
// The round trip: canonical text always parses back to the same frame.
// ---------------------------------------------------------------------

/// A literal prefix is consumed exactly.
proof fn lemma_sp_lit_prefix(lit: Seq<char>, rest: Seq<char>)
    ensures
        sp_lit(lit + rest, lit) == Some(rest),
{
    let s = lit + rest;
    assert(s.subrange(0, lit.len() as int) =~= lit);
    assert(s.skip(lit.len() as int) =~= rest);
}

/// An escaped body followed by its closing quote reads back exactly.
proof fn lemma_sp_str_body_escape(v: Seq<char>, rest: Seq<char>)
    ensures
        sp_str_body(spec_escape(v) + seq!['"'] + rest) == Some((v, rest)),
    decreases v.len(),
{
    let s = spec_escape(v) + seq!['"'] + rest;
    if v.len() == 0 {
        assert(s =~= seq!['"'] + rest);
        assert(s[0] == '"');
        assert(s.drop_first() =~= rest);
        assert(v =~= Seq::<char>::empty());
    } else {
        let c = v[0];
        let e = esc_char(c);
        lemma_sp_str_body_escape(v.drop_first(), rest);
        let inner = spec_escape(v.drop_first()) + seq!['"'] + rest;
        assert(s =~= e + inner);
        if c == '"' || c == '\\' || c == '\n' || c == '\r' || c == '\t' {
            assert(e.len() == 2 && e[0] == '\\');
            assert(s[0] == '\\' && s[1] == e[1]);
            assert(s.len() >= 2);
            assert(s.skip(2) =~= inner);
            assert(seq![c] + v.drop_first() =~= v);
        } else {
            assert(e =~= seq![c]);
            assert(s[0] == c);
            assert(c != '"' && c != '\\');
            assert(s.drop_first() =~= inner);
            assert(seq![c] + v.drop_first() =~= v);
        }
    }
}

/// A quoted string reads back exactly.
proof fn lemma_sp_string_of(v: Seq<char>, rest: Seq<char>)
    ensures
        sp_string(spec_string(v) + rest) == Some((v, rest)),
{
    let s = spec_string(v) + rest;
    assert(s[0] == '"');
    assert(s.drop_first() =~= spec_escape(v) + seq!['"'] + rest);
    lemma_sp_str_body_escape(v, rest);
}

/// The kind word with its closing quote reads back exactly.
proof fn lemma_sp_kind_of(k: ChatType, rest: Seq<char>)
    ensures
        sp_kind(kind_word(k) + seq!['"'] + rest) == Some((k, rest)),
{
    let s = kind_word(k) + seq!['"'] + rest;
    let wt = kind_word(ChatType::TYPING) + seq!['"'];
    let we = kind_word(ChatType::TEXT) + seq!['"'];
    let wc = kind_word(ChatType::CONNECT) + seq!['"'];
    let wd = kind_word(ChatType::DISCONNECT) + seq!['"'];
    match k {
        ChatType::TYPING => {
            assert(s =~= wt + rest);
            lemma_sp_lit_prefix(wt, rest);
        },
        ChatType::TEXT => {
            assert(s =~= we + rest);
            lemma_sp_lit_prefix(we, rest);
            assert(s[1] == 'E');
            if wt.len() <= s.len() {
                assert(s.subrange(0, wt.len() as int)[1] == 'E');
                assert(s.subrange(0, wt.len() as int) != wt);
            }
            assert(sp_lit(s, wt) is None);
        },
        ChatType::CONNECT => {
            assert(s =~= wc + rest);
            lemma_sp_lit_prefix(wc, rest);
            assert(s[0] == 'C');
            if wt.len() <= s.len() {
                assert(s.subrange(0, wt.len() as int)[0] == 'C');
                assert(s.subrange(0, wt.len() as int) != wt);
            }
            if we.len() <= s.len() {
                assert(s.subrange(0, we.len() as int)[0] == 'C');
                assert(s.subrange(0, we.len() as int) != we);
            }
            assert(sp_lit(s, wt) is None);
            assert(sp_lit(s, we) is None);
        },
        ChatType::DISCONNECT => {
            assert(s =~= wd + rest);
            lemma_sp_lit_prefix(wd, rest);
            assert(s[0] == 'D');
            if wt.len() <= s.len() {
                assert(s.subrange(0, wt.len() as int)[0] == 'D');
                assert(s.subrange(0, wt.len() as int) != wt);
            }
            if we.len() <= s.len() {
                assert(s.subrange(0, we.len() as int)[0] == 'D');
                assert(s.subrange(0, we.len() as int) != we);
            }
            if wc.len() <= s.len() {
                assert(s.subrange(0, wc.len() as int)[0] == 'D');
                assert(s.subrange(0, wc.len() as int) != wc);
            }
            assert(sp_lit(s, wt) is None);
            assert(sp_lit(s, we) is None);
            assert(sp_lit(s, wc) is None);
        },
    }
}

/// A non-empty encoded value list with its closing bracket reads back
/// exactly.
proof fn lemma_sp_values_items_of(vs: Seq<Seq<char>>, rest: Seq<char>)
    requires
        vs.len() >= 1,
    ensures
        sp_values_items(spec_values_inner(vs) + seq![']'] + rest) == Some((vs, rest)),
    decreases vs.len(),
{
    let s = spec_values_inner(vs) + seq![']'] + rest;
    if vs.len() == 1 {
        let tail = seq![']'] + rest;
        assert(s =~= spec_string(vs[0]) + tail);
        lemma_sp_string_of(vs[0], tail);
        assert(tail[0] == ']');
        assert(tail.drop_first() =~= rest);
        assert(seq![vs[0]] =~= vs);
    } else {
        let inner2 = spec_values_inner(vs.drop_first()) + seq![']'] + rest;
        let tail = seq![','] + inner2;
        assert(s =~= spec_string(vs[0]) + tail);
        lemma_sp_string_of(vs[0], tail);
        assert(tail[0] == ',');
        assert(tail.drop_first() =~= inner2);
        lemma_sp_values_items_of(vs.drop_first(), rest);
        assert(seq![vs[0]] + vs.drop_first() =~= vs);
    }
}

/// An encoded value array reads back exactly.
proof fn lemma_sp_values_of(vs: Seq<Seq<char>>, rest: Seq<char>)
    ensures
        sp_values(spec_values(vs) + rest) == Some((vs, rest)),
{
    let s = spec_values(vs) + rest;
    if vs.len() == 0 {
        assert(s =~= seq!['[', ']'] + rest);
        assert(s.len() >= 2 && s[0] == '[' && s[1] == ']');
        assert(s.skip(2) =~= rest);
        assert(vs =~= Seq::<Seq<char>>::empty());
    } else {
        assert(s[0] == '[');
        assert(spec_values_inner(vs)[0] == spec_string(vs[0])[0]);
        assert(s[1] == spec_values_inner(vs)[0]);
        assert(s[1] == '"');
        assert(s.drop_first() =~= spec_values_inner(vs) + seq![']'] + rest);
        lemma_sp_values_items_of(vs, rest);
    }
}

/// Every character of a written number is a digit.
proof fn lemma_spec_num_digits(n: int)
    requires
        n >= 0,
    ensures
        spec_num(n).len() >= 1,
        forall|k: int| 0 <= k < spec_num(n).len() ==> is_digit(#[trigger] spec_num(n)[k]),
    decreases n,
{
    if n >= 10 {
        lemma_spec_num_digits(n / 10);
        assert forall|k: int| 0 <= k < spec_num(n).len() implies is_digit(
            #[trigger] spec_num(n)[k],
        ) by {
            if k < spec_num(n / 10).len() {
                assert(spec_num(n)[k] == spec_num(n / 10)[k]);
            } else {
                assert(spec_num(n)[k] == digit_char(n % 10));
            }
        }
    }
}

/// A written number reads back to its own value.
proof fn lemma_spec_num_val(n: int)
    requires
        n >= 0,
    ensures
        digits_val(spec_num(n)) == n,
    decreases n,
{
    reveal_with_fuel(digits_val, 3);
    if n < 10 {
        assert(spec_num(n) =~= seq![digit_char(n)]);
        assert(seq![digit_char(n)].drop_last() =~= Seq::<char>::empty());
        assert(digit_val(digit_char(n)) == n);
    } else {
        lemma_spec_num_val(n / 10);
        assert(spec_num(n).drop_last() =~= spec_num(n / 10));
        assert(spec_num(n).last() == digit_char(n % 10));
        assert(digit_val(digit_char(n % 10)) == n % 10);
        assert(digits_val(spec_num(n)) == digits_val(spec_num(n / 10)) * 10 + digit_val(
            digit_char(n % 10),
        ));
    }
}

/// A value below ten to the `k` is written in at most `k` digits.
proof fn lemma_spec_num_len(n: int, k: nat)
    requires
        n >= 0,
        k >= 1,
        n < pow10(k),
    ensures
        spec_num(n).len() <= k,
    decreases n,
{
    if n < 10 {
    } else {
        lemma_pow10_pos((k - 1) as nat);
        if k == 1 {
            assert(pow10(1nat) == 10);
            assert(false);
        }
        assert(pow10(k) == 10 * pow10((k - 1) as nat));
        assert(n / 10 < pow10((k - 1) as nat)) by (nonlinear_arith)
            requires
                n >= 10,
                n < 10 * pow10((k - 1) as nat),
                pow10((k - 1) as nat) >= 1,
        ;
        lemma_spec_num_len(n / 10, (k - 1) as nat);
    }
}

/// A written number followed by anything that is not a digit reads
/// back exactly.
proof fn lemma_sp_num_of(n: usize, rest: Seq<char>)
    requires
        (n as int) < pow10(18),
        rest.len() == 0 || !is_digit(rest[0]),
    ensures
        sp_num(spec_num(n as int) + rest) == Some((n, rest)),
{
    let d = spec_num(n as int);
    let s = d + rest;
    lemma_spec_num_digits(n as int);
    lemma_spec_num_val(n as int);
    lemma_spec_num_len(n as int, 18);
    assert forall|t: int| 0 <= t < d.len() implies is_digit(#[trigger] s[t]) by {
        assert(s[t] == d[t]);
    }
    if rest.len() > 0 {
        assert(s[d.len() as int] == rest[0]);
    }
    lemma_digit_run(s, d.len() as int);
    assert(s.take(d.len() as int) =~= d);
    assert(s.skip(d.len() as int) =~= rest);
}

/// The round trip: a frame's canonical wire text always parses back to
/// the frame itself. The one bound is the wire grammar's: the id must
/// fit in eighteen decimal digits, which covers every identifier the
/// registry's counter can reach in any realistic process lifetime.
pub proof fn lemma_round_trip(m: FrameView)
    requires
        (m.id as int) < 1000000000000000000,
    ensures
        sp_frame(spec_encode(m)) == Some(m),
{
    reveal_strlit("{\"chat_type\":\"");
    reveal_strlit("\",\"value\":");
    reveal_strlit(",\"value\":");
    reveal_strlit(",\"room_id\":");
    reveal_strlit(",\"user_id\":");
    reveal_strlit(",\"id\":");
    reveal_strlit("}");
    reveal_with_fuel(pow10, 19);
    assert(pow10(18) == 1000000000000000000int);

    let s = spec_encode(m);
    let tail5 = "}"@;
    let r5 = spec_num(m.id as int) + tail5;
    let r4b = ",\"id\":"@ + r5;
    let r4 = spec_string(m.user_id) + r4b;
    let r3b = ",\"user_id\":"@ + r4;
    let r3 = spec_string(m.room_id) + r3b;
    let r2b = ",\"room_id\":"@ + r3;
    let r2 = spec_values(m.value) + r2b;
    let r1b = ",\"value\":"@ + r2;
    let r1 = kind_word(m.kind) + seq!['"'] + r1b;

    assert("\",\"value\":"@ =~= seq!['"'] + ",\"value\":"@);
    assert(s =~= "{\"chat_type\":\""@ + r1);
    lemma_sp_lit_prefix("{\"chat_type\":\""@, r1);
    lemma_sp_kind_of(m.kind, r1b);
    lemma_sp_lit_prefix(",\"value\":"@, r2);
    lemma_sp_values_of(m.value, r2b);
    lemma_sp_lit_prefix(",\"room_id\":"@, r3);
    lemma_sp_string_of(m.room_id, r3b);
    lemma_sp_lit_prefix(",\"user_id\":"@, r4);
    lemma_sp_string_of(m.user_id, r4b);
    lemma_sp_lit_prefix(",\"id\":"@, r5);
    assert(tail5 =~= seq!['}']);
    assert(!is_digit('}'));
    lemma_sp_num_of(m.id, tail5);
    assert(sp_frame(s)->0 =~~= m);
}

/// No two distinct frames share a wire text: whoever receives a
/// canonical text can speak of "the" frame it carries.
pub proof fn lemma_encode_injective(m1: FrameView, m2: FrameView)
    requires
        (m1.id as int) < 1000000000000000000,
        (m2.id as int) < 1000000000000000000,
        spec_encode(m1) == spec_encode(m2),
    ensures
        m1 == m2,
{
    lemma_round_trip(m1);
    lemma_round_trip(m2);
}

} // verus!
