//! The WAL's persisted form: one JSON object per line, one line per accepted
//! order. The encoder and the parser are verified against one mathematical
//! form each, and parsing an encoded entry provably gives the entry back.
//!
//! The line layout is `{"seq":u64,"symbol":str,"side":str,"price":i64,
//! "qty":i64,"client_order_id":str}` with no spaces; strings escape the
//! quote, the backslash and control characters exactly as the standard JSON
//! serializers do.

use vstd::prelude::*;

use crate::wal::WalEntry;
use crate::wal::WalEntryV;

verus! {

broadcast use vstd::string::group_string_axioms;

/// Whether a character is a decimal digit.
pub open spec fn is_digit(c: char) -> bool {
    48 <= (c as u32) && (c as u32) <= 57
}

/// The numeric value of a decimal digit character.
pub open spec fn digit_val(c: char) -> int {
    c as u32 - 48
}

/// The character of a decimal digit value.
pub open spec fn digit_char(d: int) -> char {
    if d == 0 {
        '0'
    } else if d == 1 {
        '1'
    } else if d == 2 {
        '2'
    } else if d == 3 {
        '3'
    } else if d == 4 {
        '4'
    } else if d == 5 {
        '5'
    } else if d == 6 {
        '6'
    } else if d == 7 {
        '7'
    } else if d == 8 {
        '8'
    } else {
        '9'
    }
}

/// The decimal digits of a non-negative integer, most significant first.
pub open spec fn u64_digits(n: int) -> Seq<char>
    decreases n,
{
    if n < 10 {
        seq![digit_char(n)]
    } else {
        u64_digits(n / 10).push(digit_char(n % 10))
    }
}

/// The decimal form of an integer: a minus sign for negatives, then digits.
pub open spec fn int_chars(n: int) -> Seq<char> {
    if n < 0 {
        seq!['-'] + u64_digits(-n)
    } else {
        u64_digits(n)
    }
}

/// The lowercase hexadecimal digit character of a value below 16.
pub open spec fn hex_char(d: int) -> char {
    if d < 10 {
        digit_char(d)
    } else if d == 10 {
        'a'
    } else if d == 11 {
        'b'
    } else if d == 12 {
        'c'
    } else if d == 13 {
        'd'
    } else if d == 14 {
        'e'
    } else {
        'f'
    }
}

/// How one character appears inside a JSON string: itself, a two-character
/// escape for the quote, the backslash and the common control characters, or
/// a `\u00..` escape for the remaining control characters.
pub open spec fn esc_char(c: char) -> Seq<char> {
    if c == '"' {
        seq!['\\', '"']
    } else if c == '\\' {
        seq!['\\', '\\']
    } else if c as u32 == 8 {
        seq!['\\', 'b']
    } else if c as u32 == 9 {
        seq!['\\', 't']
    } else if c as u32 == 10 {
        seq!['\\', 'n']
    } else if c as u32 == 12 {
        seq!['\\', 'f']
    } else if c as u32 == 13 {
        seq!['\\', 'r']
    } else if (c as u32) < 32 {
        seq!['\\', 'u', '0', '0', hex_char(((c as u32) as int) / 16), hex_char(((c as u32) as int) % 16)]
    } else {
        seq![c]
    }
}

/// A string's characters, each escaped.
pub open spec fn esc_str(s: Seq<char>) -> Seq<char>
    decreases s.len(),
{
    if s.len() == 0 {
        Seq::<char>::empty()
    } else {
        esc_char(s[0]) + esc_str(s.drop_first())
    }
}

/// A JSON string: quoted, escaped content.
pub open spec fn quoted(s: Seq<char>) -> Seq<char> {
    seq!['"'] + esc_str(s) + seq!['"']
}

/// The persisted line of a WAL entry, without the trailing newline.
pub open spec fn encode_wal_entry_spec(e: WalEntryV) -> Seq<char> {
    "{\"seq\":"@ + u64_digits(e.seq) + ",\"symbol\":"@ + quoted(e.symbol) + ",\"side\":"@ + quoted(
        e.side,
    ) + ",\"price\":"@ + int_chars(e.price) + ",\"qty\":"@ + int_chars(e.qty)
        + ",\"client_order_id\":"@ + quoted(e.cid) + "}"@
}

/// Relies on `String::push`: appends exactly the one given character.
#[verifier::external_body]
fn push_char(out: &mut String, c: char)
    ensures
        final(out)@ == old(out)@.push(c),
{
    out.push(c);
}

fn append_str(out: &mut String, s: &str)
    ensures
        final(out)@ == old(out)@ + s@,
{
    vstd::string::StringExecFns::append(out, s)
}

/// The one-character string of a decimal digit value.
fn digit_str(d: u64) -> (r: &'static str)
    requires
        d < 10,
    ensures
        r@ == seq![digit_char(d as int)],
{
    proof {
        reveal_strlit("0");
        reveal_strlit("1");
        reveal_strlit("2");
        reveal_strlit("3");
        reveal_strlit("4");
        reveal_strlit("5");
        reveal_strlit("6");
        reveal_strlit("7");
        reveal_strlit("8");
        reveal_strlit("9");
    }
    if d == 0 {
        let r = "0";
        proof {
            assert(r@ =~= seq![digit_char(0)]);
        }
        r
    } else if d == 1 {
        let r = "1";
        proof {
            assert(r@ =~= seq![digit_char(1)]);
        }
        r
    } else if d == 2 {
        let r = "2";
        proof {
            assert(r@ =~= seq![digit_char(2)]);
        }
        r
    } else if d == 3 {
        let r = "3";
        proof {
            assert(r@ =~= seq![digit_char(3)]);
        }
        r
    } else if d == 4 {
        let r = "4";
        proof {
            assert(r@ =~= seq![digit_char(4)]);
        }
        r
    } else if d == 5 {
        let r = "5";
        proof {
            assert(r@ =~= seq![digit_char(5)]);
        }
        r
    } else if d == 6 {
        let r = "6";
        proof {
            assert(r@ =~= seq![digit_char(6)]);
        }
        r
    } else if d == 7 {
        let r = "7";
        proof {
            assert(r@ =~= seq![digit_char(7)]);
        }
        r
    } else if d == 8 {
        let r = "8";
        proof {
            assert(r@ =~= seq![digit_char(8)]);
        }
        r
    } else {
        let r = "9";
        proof {
            assert(r@ =~= seq![digit_char(9)]);
        }
        r
    }
}

/// Appends the decimal digits of a non-negative number.
fn append_u64(out: &mut String, n: u64)
    ensures
        final(out)@ == old(out)@ + u64_digits(n as int),
    decreases n,
{
    if n < 10 {
        append_str(out, digit_str(n));
    } else {
        append_u64(out, n / 10);
        append_str(out, digit_str(n % 10));
        proof {
            assert(u64_digits(n as int) == u64_digits(n as int / 10).push(
                digit_char(n as int % 10),
            ));
            assert(out@ =~= old(out)@ + u64_digits(n as int));
        }
    }
}

/// Appends the decimal form of a signed number.
fn append_i64(out: &mut String, n: i64)
    ensures
        final(out)@ == old(out)@ + int_chars(n as int),
{
    if n < 0 {
        append_str(out, "-");
        let m: u64 = if n == i64::MIN {
            9223372036854775808u64
        } else {
            (-n) as u64
        };
        append_u64(out, m);
        proof {
            reveal_strlit("-");
            assert("-"@ =~= seq!['-']);
            assert(m as int == -(n as int));
            assert(out@ =~= old(out)@ + int_chars(n as int));
        }
    } else {
        append_u64(out, n as u64);
    }
}

/// Escaping one more character extends the escaped string.
proof fn lemma_esc_str_snoc(s: Seq<char>, i: int)
    requires
        0 <= i < s.len(),
    ensures
        esc_str(s.take(i + 1)) == esc_str(s.take(i)) + esc_char(s[i]),
    decreases i,
{
    if i == 0 {
        assert(s.take(0) =~= Seq::<char>::empty());
        let s1 = s.take(1);
        assert(s1[0] == s[0]);
        assert(s1.drop_first() =~= Seq::<char>::empty());
        assert(esc_char(s[0]) + Seq::<char>::empty() =~= esc_char(s[0]));
        assert(Seq::<char>::empty() + esc_char(s[0]) =~= esc_char(s[0]));
    } else {
        let d = s.drop_first();
        lemma_esc_str_snoc(d, i - 1);
        assert(s.take(i + 1)[0] == s[0]);
        assert(s.take(i)[0] == s[0]);
        assert(s.take(i + 1).drop_first() =~= d.take(i));
        assert(s.take(i).drop_first() =~= d.take(i - 1));
        assert(d[i - 1] == s[i]);
        assert(esc_char(s[0]) + (esc_str(d.take(i - 1)) + esc_char(s[i])) =~= (esc_char(s[0])
            + esc_str(d.take(i - 1))) + esc_char(s[i]));
    }
}

/// The one-character string of a hexadecimal digit value.
fn hex_str(d: u32) -> (r: &'static str)
    requires
        d < 16,
    ensures
        r@ == seq![hex_char(d as int)],
{
    if d < 10 {
        digit_str(d as u64)
    } else {
        proof {
            reveal_strlit("a");
            reveal_strlit("b");
            reveal_strlit("c");
            reveal_strlit("d");
            reveal_strlit("e");
            reveal_strlit("f");
        }
        if d == 10 {
            let r = "a";
            proof {
                assert(r@ =~= seq![hex_char(10)]);
            }
            r
        } else if d == 11 {
            let r = "b";
            proof {
                assert(r@ =~= seq![hex_char(11)]);
            }
            r
        } else if d == 12 {
            let r = "c";
            proof {
                assert(r@ =~= seq![hex_char(12)]);
            }
            r
        } else if d == 13 {
            let r = "d";
            proof {
                assert(r@ =~= seq![hex_char(13)]);
            }
            r
        } else if d == 14 {
            let r = "e";
            proof {
                assert(r@ =~= seq![hex_char(14)]);
            }
            r
        } else {
            let r = "f";
            proof {
                assert(r@ =~= seq![hex_char(15)]);
            }
            r
        }
    }
}

/// Appends a string's characters in their escaped form.
fn append_escaped(out: &mut String, s: &str)
    ensures
        final(out)@ == old(out)@ + esc_str(s@),
{
    let n = vstd::string::StrSliceExecFns::unicode_len(s);
    proof {
        assert(s@.take(0) =~= Seq::<char>::empty());
        assert(out@ + esc_str(s@.take(0)) =~= out@);
    }
    let mut i: usize = 0;
    while i < n
        invariant
            0 <= i <= n,
            n == s@.len(),
            out@ == old(out)@ + esc_str(s@.take(i as int)),
        decreases n - i,
    {
        let c = vstd::string::StrSliceExecFns::get_char(s, i);
        let u = c as u32;
        let ghost pre = out@;
        if c == '"' {
            append_str(out, "\\\"");
            proof {
                reveal_strlit("\\\"");
                assert("\\\""@ =~= esc_char(c));
            }
        } else if c == '\\' {
            append_str(out, "\\\\");
            proof {
                reveal_strlit("\\\\");
                assert("\\\\"@ =~= esc_char(c));
            }
        } else if u == 8 {
            append_str(out, "\\b");
            proof {
                reveal_strlit("\\b");
                assert("\\b"@ =~= esc_char(c));
            }
        } else if u == 9 {
            append_str(out, "\\t");
            proof {
                reveal_strlit("\\t");
                assert("\\t"@ =~= esc_char(c));
            }
        } else if u == 10 {
            append_str(out, "\\n");
            proof {
                reveal_strlit("\\n");
                assert("\\n"@ =~= esc_char(c));
            }
        } else if u == 12 {
            append_str(out, "\\f");
            proof {
                reveal_strlit("\\f");
                assert("\\f"@ =~= esc_char(c));
            }
        } else if u == 13 {
            append_str(out, "\\r");
            proof {
                reveal_strlit("\\r");
                assert("\\r"@ =~= esc_char(c));
            }
        } else if u < 32 {
            append_str(out, "\\u00");
            append_str(out, hex_str(u / 16));
            append_str(out, hex_str(u % 16));
            proof {
                reveal_strlit("\\u00");
                assert("\\u00"@ =~= seq!['\\', 'u', '0', '0']);
                assert(pre + "\\u00"@ + seq![hex_char(u as int / 16)] + seq![
                    hex_char(u as int % 16),
                ] =~= pre + esc_char(c));
            }
        } else {
            push_char(out, c);
            proof {
                assert(pre.push(c) =~= pre + esc_char(c));
            }
        }
        proof {
            lemma_esc_str_snoc(s@, i as int);
            assert(out@ =~= old(out)@ + esc_str(s@.take(i + 1)));
        }
        i = i + 1;
    }
    proof {
        assert(s@.take(n as int) =~= s@);
    }
}

/// Appends a JSON string: quote, escaped content, quote.
fn append_quoted(out: &mut String, s: &str)
    ensures
        final(out)@ == old(out)@ + quoted(s@),
{
    append_str(out, "\"");
    append_escaped(out, s);
    append_str(out, "\"");
    proof {
        reveal_strlit("\"");
        assert("\""@ =~= seq!['"']);
        assert(out@ =~= old(out)@ + quoted(s@));
    }
}

/// Encodes one WAL entry as its persisted JSON line (without the trailing
/// newline).
pub fn encode_wal_entry(e: &WalEntry) -> (r: String)
    ensures
        r@ == encode_wal_entry_spec(e@),
{
    let mut out = String::new();
    append_str(&mut out, "{\"seq\":");
    append_u64(&mut out, e.seq);
    append_str(&mut out, ",\"symbol\":");
    append_quoted(&mut out, e.symbol.as_str());
    append_str(&mut out, ",\"side\":");
    append_quoted(&mut out, e.side.as_str());
    append_str(&mut out, ",\"price\":");
    append_i64(&mut out, e.price);
    append_str(&mut out, ",\"qty\":");
    append_i64(&mut out, e.qty);
    append_str(&mut out, ",\"client_order_id\":");
    append_quoted(&mut out, e.client_order_id.as_str());
    append_str(&mut out, "}");
    proof {
        assert(out@ =~= encode_wal_entry_spec(e@));
    }
    out
}

/// The end of the run of digits starting at `i`.
pub open spec fn digits_end(s: Seq<char>, i: int) -> int
    decreases s.len() - i
        when 0 <= i <= s.len()
{
    if i < s.len() && is_digit(s[i]) {
        digits_end(s, i + 1)
    } else {
        i
    }
}

/// The value of a digit string, most significant first.
pub open spec fn digits_val(ds: Seq<char>) -> int
    decreases ds.len(),
{
    if ds.len() == 0 {
        0
    } else {
        digits_val(ds.drop_last()) * 10 + digit_val(ds.last())
    }
}

/// Parses an unsigned number at `i`: a non-empty digit run without a leading
/// zero whose value fits. Returns the value and the position after it.
pub open spec fn parse_u64_at(s: Seq<char>, i: int) -> Option<(int, int)> {
    if !(0 <= i <= s.len()) {
        None
    } else {
        let j = digits_end(s, i);
        if j == i {
            None
        } else if s[i] == '0' && j > i + 1 {
            None
        } else if digits_val(s.subrange(i, j)) > u64::MAX {
            None
        } else {
            Some((digits_val(s.subrange(i, j)), j))
        }
    }
}

/// Parses a signed number at `i`.
pub open spec fn parse_i64_at(s: Seq<char>, i: int) -> Option<(int, int)> {
    if 0 <= i < s.len() && s[i] == '-' {
        match parse_u64_at(s, i + 1) {
            Some(r) => if r.0 <= 0x8000000000000000 {
                Some((-r.0, r.1))
            } else {
                None
            },
            None => None,
        }
    } else {
        match parse_u64_at(s, i) {
            Some(r) => if r.0 <= i64::MAX {
                Some(r)
            } else {
                None
            },
            None => None,
        }
    }
}

/// Whether a character is a lowercase hexadecimal digit.
pub open spec fn is_hex_lower(c: char) -> bool {
    is_digit(c) || (97 <= (c as u32) && (c as u32) <= 102)
}

/// The value of a lowercase hexadecimal digit character.
pub open spec fn hex_val(c: char) -> int {
    if is_digit(c) {
        digit_val(c)
    } else {
        c as u32 - 87
    }
}

/// The character with the given code.
pub open spec fn char_of_code(n: int) -> char {
    (n as u32) as char
}

/// The character a short escape stands for.
pub open spec fn unesc_short(c: char) -> char {
    if c == '"' {
        '"'
    } else if c == '\\' {
        '\\'
    } else if c == 'b' {
        char_of_code(8)
    } else if c == 't' {
        char_of_code(9)
    } else if c == 'n' {
        char_of_code(10)
    } else if c == 'f' {
        char_of_code(12)
    } else {
        char_of_code(13)
    }
}

/// Parses escaped string content from `i` up to the closing quote: the
/// decoded characters and the position after the quote. Unknown escapes,
/// raw control characters and an unterminated string are malformed.
pub open spec fn parse_string_at(s: Seq<char>, i: int) -> Option<(Seq<char>, int)>
    decreases s.len() - i
        when 0 <= i <= s.len()
{
    if i >= s.len() {
        None
    } else if s[i] == '"' {
        Some((Seq::<char>::empty(), i + 1))
    } else if s[i] == '\\' {
        if i + 2 > s.len() {
            None
        } else {
            let c = s[i + 1];
            if c == '"' || c == '\\' || c == 'b' || c == 't' || c == 'n' || c == 'f' || c == 'r' {
                match parse_string_at(s, i + 2) {
                    Some(r) => Some((seq![unesc_short(c)] + r.0, r.1)),
                    None => None,
                }
            } else if c == 'u' {
                if i + 6 > s.len() {
                    None
                } else if s[i + 2] == '0' && s[i + 3] == '0' && is_hex_lower(s[i + 4])
                    && is_hex_lower(s[i + 5]) {
                    match parse_string_at(s, i + 6) {
                        Some(r) => Some(
                            (
                                seq![char_of_code(hex_val(s[i + 4]) * 16 + hex_val(s[i + 5]))]
                                    + r.0,
                                r.1,
                            ),
                        ),
                        None => None,
                    }
                } else {
                    None
                }
            } else {
                None
            }
        }
    } else if (s[i] as u32) < 32 {
        None
    } else {
        match parse_string_at(s, i + 1) {
            Some(r) => Some((seq![s[i]] + r.0, r.1)),
            None => None,
        }
    }
}

/// Parses a JSON string at `i`: an opening quote, then escaped content.
pub open spec fn parse_quoted_at(s: Seq<char>, i: int) -> Option<(Seq<char>, int)> {
    if 0 <= i < s.len() && s[i] == '"' {
        parse_string_at(s, i + 1)
    } else {
        None
    }
}

/// Consumes an exact literal at `i`.
pub open spec fn expect_at(s: Seq<char>, i: int, lit: Seq<char>) -> Option<int> {
    if 0 <= i && i + lit.len() <= s.len() && s.subrange(i, i + lit.len()) == lit {
        Some(i + lit.len())
    } else {
        None
    }
}

/// Parses one WAL line: exactly the layout the encoder writes, and nothing
/// after it.
pub open spec fn parse_wal_entry_spec(s: Seq<char>) -> Option<WalEntryV> {
    match expect_at(s, 0, "{\"seq\":"@) {
        None => None,
        Some(i1) => match parse_u64_at(s, i1) {
            None => None,
            Some(rseq) => match expect_at(s, rseq.1, ",\"symbol\":"@) {
                None => None,
                Some(i2) => match parse_quoted_at(s, i2) {
                    None => None,
                    Some(rsym) => match expect_at(s, rsym.1, ",\"side\":"@) {
                        None => None,
                        Some(i3) => match parse_quoted_at(s, i3) {
                            None => None,
                            Some(rside) => match expect_at(s, rside.1, ",\"price\":"@) {
                                None => None,
                                Some(i4) => match parse_i64_at(s, i4) {
                                    None => None,
                                    Some(rprice) => match expect_at(s, rprice.1, ",\"qty\":"@) {
                                        None => None,
                                        Some(i5) => match parse_i64_at(s, i5) {
                                            None => None,
                                            Some(rqty) => match expect_at(
                                                s,
                                                rqty.1,
                                                ",\"client_order_id\":"@,
                                            ) {
                                                None => None,
                                                Some(i6) => match parse_quoted_at(s, i6) {
                                                    None => None,
                                                    Some(rcid) => match expect_at(s, rcid.1, "}"@) {
                                                        None => None,
                                                        Some(end) => if end == s.len() {
                                                            Some(
                                                                WalEntryV {
                                                                    seq: rseq.0,
                                                                    symbol: rsym.0,
                                                                    side: rside.0,
                                                                    price: rprice.0,
                                                                    qty: rqty.0,
                                                                    cid: rcid.0,
                                                                },
                                                            )
                                                        } else {
                                                            None
                                                        },
                                                    },
                                                },
                                            },
                                        },
                                    },
                                },
                            },
                        },
                    },
                },
            },
        },
    }
}

/// The characters of a string, as a vector.
fn str_chars(s: &str) -> (cs: Vec<char>)
    ensures
        cs@ == s@,
{
    let n = vstd::string::StrSliceExecFns::unicode_len(s);
    let mut cs: Vec<char> = Vec::new();
    proof {
        assert(cs@ =~= s@.take(0));
    }
    let mut i: usize = 0;
    while i < n
        invariant
            0 <= i <= n,
            n == s@.len(),
            cs@ == s@.take(i as int),
        decreases n - i,
    {
        cs.push(vstd::string::StrSliceExecFns::get_char(s, i));
        proof {
            assert(cs@ =~= s@.take(i + 1));
        }
        i = i + 1;
    }
    proof {
        assert(s@.take(n as int) =~= s@);
    }
    cs
}

/// Consumes the exact literal at `i`, returning the position after it.
fn expect(cs: &Vec<char>, i: usize, lit: &str) -> (r: Option<usize>)
    requires
        i <= cs@.len(),
    ensures
        match r {
            Some(j) => expect_at(cs@, i as int, lit@) == Some(j as int) && i <= j <= cs@.len(),
            None => expect_at(cs@, i as int, lit@) is None,
        },
{
    let n = vstd::string::StrSliceExecFns::unicode_len(lit);
    if n > cs.len() - i {
        return None;
    }
    let mut j: usize = 0;
    while j < n
        invariant
            0 <= j <= n,
            n == lit@.len(),
            i + n <= cs@.len(),
            i + n <= usize::MAX,
            forall|k: int| 0 <= k < j ==> cs@[i + k] == lit@[k],
        decreases n - j,
    {
        let c = cs[i + j];
        let l = vstd::string::StrSliceExecFns::get_char(lit, j);
        if c != l {
            proof {
                if expect_at(cs@, i as int, lit@) is Some {
                    assert(cs@.subrange(i as int, i + lit@.len()) == lit@);
                    assert(cs@.subrange(i as int, i + lit@.len())[j as int] == cs@[i + j]);
                }
            }
            return None;
        }
        j = j + 1;
    }
    proof {
        assert(cs@.subrange(i as int, i + n) =~= lit@);
    }
    Some(i + n)
}

/// The value of one more digit appended to a digit run.
proof fn lemma_digits_val_step(s: Seq<char>, i: int, m: int)
    requires
        0 <= i <= m < s.len(),
    ensures
        digits_val(s.subrange(i, m + 1)) == digits_val(s.subrange(i, m)) * 10 + digit_val(s[m]),
{
    let a = s.subrange(i, m + 1);
    assert(a.drop_last() =~= s.subrange(i, m));
    assert(a.last() == s[m]);
}


/// Whether a character is a decimal digit.
fn digit_exec(c: char) -> (b: bool)
    ensures
        b == is_digit(c),
{
    let u = c as u32;
    48 <= u && u <= 57
}

/// Parses an unsigned number at `i`, exactly as `parse_u64_at` says.
fn parse_u64(cs: &Vec<char>, i: usize) -> (r: Option<(u64, usize)>)
    requires
        i <= cs@.len(),
    ensures
        match r {
            Some(p) => parse_u64_at(cs@, i as int) == Some((p.0 as int, p.1 as int)) && i < p.1
                <= cs@.len(),
            None => parse_u64_at(cs@, i as int) is None,
        },
{
    let n = cs.len();
    // find the end of the digit run
    let mut j: usize = i;
    while j < n && digit_exec(cs[j])
        invariant
            i <= j <= n,
            n == cs@.len(),
            digits_end(cs@, i as int) == digits_end(cs@, j as int),
            forall|k: int| i <= k < j ==> is_digit(#[trigger] cs@[k]),
        decreases n - j,
    {
        proof {
            assert(digits_end(cs@, j as int) == digits_end(cs@, j + 1));
        }
        j = j + 1;
    }
    proof {
        assert(digits_end(cs@, j as int) == j as int);
        assert(digits_end(cs@, i as int) == j as int);
    }
    if j == i {
        return None;
    }
    // a leading zero is only the number zero itself
    let u0 = cs[i] as u32;
    if u0 == 48 && j > i + 1 {
        proof {
            vstd::utf8::char_u32_cast(cs@[i as int], 48);
            vstd::utf8::char_u32_cast('0', 48);
        }
        return None;
    }
    // accumulate, stopping exactly where the value would no longer fit
    let mut acc: u64 = 0;
    let mut k: usize = i;
    let mut sat = false;
    proof {
        assert(cs@.subrange(i as int, i as int) =~= Seq::<char>::empty());
    }
    while k < j
        invariant
            i <= k <= j <= cs@.len(),
            forall|m: int| i <= m < j ==> is_digit(#[trigger] cs@[m]),
            !sat ==> acc as int == digits_val(cs@.subrange(i as int, k as int)),
            sat ==> digits_val(cs@.subrange(i as int, k as int)) > u64::MAX,
        decreases j - k,
    {
        let d = (cs[k] as u32 - 48) as u64;
        proof {
            lemma_digits_val_step(cs@, i as int, k as int);
            assert(digit_val(cs@[k as int]) == d as int);
            assert(0 <= digit_val(cs@[k as int]) <= 9);
        }
        if sat {
            proof {
                let v = digits_val(cs@.subrange(i as int, k as int));
                assert(v * 10 == v + v * 9) by (nonlinear_arith);
                assert(v * 9 >= 0) by (nonlinear_arith)
                    requires
                        v > 0,
                ;
            }
        } else {
            if acc > (u64::MAX - d) / 10 {
                proof {
                    let bound = ((u64::MAX - d) / 10) as int;
                    assert(bound * 10 + (u64::MAX as int - d as int) % 10 == u64::MAX as int
                        - d as int) by (nonlinear_arith)
                        requires
                            bound == (u64::MAX as int - d as int) / 10,
                    ;
                    assert(acc as int * 10 >= (bound + 1) * 10) by (nonlinear_arith)
                        requires
                            acc as int >= bound + 1,
                    ;
                }
                sat = true;
            } else {
                proof {
                    let bound = ((u64::MAX - d) / 10) as int;
                    assert(bound * 10 <= u64::MAX as int - d as int) by (nonlinear_arith)
                        requires
                            bound == (u64::MAX as int - d as int) / 10,
                    ;
                    assert(acc as int * 10 <= bound * 10) by (nonlinear_arith)
                        requires
                            acc as int <= bound,
                    ;
                }
                acc = acc * 10 + d;
            }
        }
        k = k + 1;
    }
    if sat {
        return None;
    }
    proof {
        assert(0 <= i as int <= cs@.len());
    }
    Some((acc, j))
}

/// Parses a signed number at `i`, exactly as `parse_i64_at` says.
fn parse_i64(cs: &Vec<char>, i: usize) -> (r: Option<(i64, usize)>)
    requires
        i <= cs@.len(),
    ensures
        match r {
            Some(p) => parse_i64_at(cs@, i as int) == Some((p.0 as int, p.1 as int)) && i < p.1
                <= cs@.len(),
            None => parse_i64_at(cs@, i as int) is None,
        },
{
    if i < cs.len() && cs[i] == '-' {
        match parse_u64(cs, i + 1) {
            Some((v, j)) => {
                if v <= 9223372036854775808u64 {
                    let out: i64 = if v == 9223372036854775808u64 {
                        i64::MIN
                    } else {
                        -(v as i64)
                    };
                    proof {
                        assert(out as int == -(v as int));
                    }
                    Some((out, j))
                } else {
                    None
                }
            },
            None => None,
        }
    } else {
        match parse_u64(cs, i) {
            Some((v, j)) => {
                if v <= 9223372036854775807u64 {
                    Some((v as i64, j))
                } else {
                    None
                }
            },
            None => None,
        }
    }
}

/// Parses escaped string content at `i` up to the closing quote, exactly as
/// `parse_string_at` says.
fn parse_string_content(cs: &Vec<char>, i: usize) -> (r: Option<(String, usize)>)
    requires
        i <= cs@.len(),
    ensures
        match r {
            Some(p) => parse_string_at(cs@, i as int) == Some((p.0@, p.1 as int)) && i < p.1
                <= cs@.len(),
            None => parse_string_at(cs@, i as int) is None,
        },
{
    let mut out = String::new();
    let mut j: usize = i;
    loop
        invariant
            i <= j <= cs@.len(),
            ({
                match parse_string_at(cs@, j as int) {
                    Some(p) => parse_string_at(cs@, i as int) == Some((out@ + p.0, p.1)),
                    None => parse_string_at(cs@, i as int) is None,
                }
            }),
        decreases cs@.len() - j,
    {
        if j >= cs.len() {
            return None;
        }
        let c = cs[j];
        if c == '"' {
            proof {
                assert(out@ + Seq::<char>::empty() =~= out@);
            }
            return Some((out, j + 1));
        }
        let ghost pre = out@;
        if c == '\\' {
            if j + 1 >= cs.len() {
                return None;
            }
            let e = cs[j + 1];
            if e == '"' || e == '\\' {
                push_char(&mut out, e);
                proof {
                    assert(unesc_short(e) == e);
                }
                j = j + 2;
            } else if e == 'b' {
                push_char(&mut out, 8u8 as char);
                proof {
                    assert(8u8 as char == char_of_code(8));
                }
                j = j + 2;
            } else if e == 't' {
                push_char(&mut out, 9u8 as char);
                proof {
                    assert(9u8 as char == char_of_code(9));
                }
                j = j + 2;
            } else if e == 'n' {
                push_char(&mut out, 10u8 as char);
                proof {
                    assert(10u8 as char == char_of_code(10));
                }
                j = j + 2;
            } else if e == 'f' {
                push_char(&mut out, 12u8 as char);
                proof {
                    assert(12u8 as char == char_of_code(12));
                }
                j = j + 2;
            } else if e == 'r' {
                push_char(&mut out, 13u8 as char);
                proof {
                    assert(13u8 as char == char_of_code(13));
                }
                j = j + 2;
            } else if e == 'u' {
                if cs.len() - j < 6 {
                    return None;
                }
                if !(cs[j + 2] == '0' && cs[j + 3] == '0') {
                    return None;
                }
                let h1 = match hex_digit(cs[j + 4]) {
                    Some(h) => h,
                    None => {
                        return None;
                    },
                };
                let h2 = match hex_digit(cs[j + 5]) {
                    Some(h) => h,
                    None => {
                        return None;
                    },
                };
                let code: u8 = h1 * 16 + h2;
                push_char(&mut out, code as char);
                proof {
                    assert(code as char == char_of_code(
                        hex_val(cs@[j + 4]) * 16 + hex_val(cs@[j + 5]),
                    ));
                }
                j = j + 6;
            } else {
                return None;
            }
        } else if (c as u32) < 32 {
            return None;
        } else {
            push_char(&mut out, c);
            j = j + 1;
        }
        proof {
            // the decoded character moves across the concatenation: what was
            // pushed onto `out` is exactly the head the one-step unfolding of
            // `parse_string_at` prepends to the rest
            match parse_string_at(cs@, j as int) {
                Some(p) => {
                    assert(out@ + p.0 =~= pre + (out@.subrange(pre.len() as int, out@.len() as int)
                        + p.0));
                },
                None => {},
            }
        }
    }
}

/// The value of a lowercase hexadecimal digit character.
fn hex_digit(c: char) -> (r: Option<u8>)
    ensures
        match r {
            Some(h) => is_hex_lower(c) && h as int == hex_val(c) && h < 16,
            None => !is_hex_lower(c),
        },
{
    let u = c as u32;
    if 48 <= u && u <= 57 {
        Some((u - 48) as u8)
    } else if 97 <= u && u <= 102 {
        Some((u - 87) as u8)
    } else {
        None
    }
}

/// Parses a JSON string at `i`, exactly as `parse_quoted_at` says.
fn parse_quoted(cs: &Vec<char>, i: usize) -> (r: Option<(String, usize)>)
    requires
        i <= cs@.len(),
    ensures
        match r {
            Some(p) => parse_quoted_at(cs@, i as int) == Some((p.0@, p.1 as int)) && i < p.1
                <= cs@.len(),
            None => parse_quoted_at(cs@, i as int) is None,
        },
{
    if i < cs.len() && cs[i] == '"' {
        parse_string_content(cs, i + 1)
    } else {
        None
    }
}

/// Parses one WAL line into an entry, exactly as `parse_wal_entry_spec`
/// says: the layout the encoder writes, with nothing before or after it.
pub fn parse_wal_entry(line: &str) -> (r: Option<WalEntry>)
    ensures
        match r {
            Some(e) => parse_wal_entry_spec(line@) == Some(e@),
            None => parse_wal_entry_spec(line@) is None,
        },
{
    let cs = str_chars(line);
    let i1 = match expect(&cs, 0, "{\"seq\":") {
        Some(i) => i,
        None => {
            return None;
        },
    };
    let (seq, i1b) = match parse_u64(&cs, i1) {
        Some(p) => p,
        None => {
            return None;
        },
    };
    let i2 = match expect(&cs, i1b, ",\"symbol\":") {
        Some(i) => i,
        None => {
            return None;
        },
    };
    let (symbol, i2b) = match parse_quoted(&cs, i2) {
        Some(p) => p,
        None => {
            return None;
        },
    };
    let i3 = match expect(&cs, i2b, ",\"side\":") {
        Some(i) => i,
        None => {
            return None;
        },
    };
    let (side, i3b) = match parse_quoted(&cs, i3) {
        Some(p) => p,
        None => {
            return None;
        },
    };
    let i4 = match expect(&cs, i3b, ",\"price\":") {
        Some(i) => i,
        None => {
            return None;
        },
    };
    let (price, i4b) = match parse_i64(&cs, i4) {
        Some(p) => p,
        None => {
            return None;
        },
    };
    let i5 = match expect(&cs, i4b, ",\"qty\":") {
        Some(i) => i,
        None => {
            return None;
        },
    };
    let (qty, i5b) = match parse_i64(&cs, i5) {
        Some(p) => p,
        None => {
            return None;
        },
    };
    let i6 = match expect(&cs, i5b, ",\"client_order_id\":") {
        Some(i) => i,
        None => {
            return None;
        },
    };
    let (cid, i6b) = match parse_quoted(&cs, i6) {
        Some(p) => p,
        None => {
            return None;
        },
    };
    let end = match expect(&cs, i6b, "}") {
        Some(i) => i,
        None => {
            return None;
        },
    };
    if end != cs.len() {
        return None;
    }
    Some(WalEntry { seq, symbol, side, price, qty, client_order_id: cid })
}

/// The decimal digits of a non-negative number: at least one digit, all
/// digits, the exact value back, and a leading zero only for zero itself.
proof fn lemma_u64_digits_props(n: int)
    requires
        n >= 0,
    ensures
        u64_digits(n).len() >= 1,
        forall|k: int| 0 <= k < u64_digits(n).len() ==> is_digit(#[trigger] u64_digits(n)[k]),
        digits_val(u64_digits(n)) == n,
        u64_digits(n)[0] == '0' ==> n == 0 && u64_digits(n).len() == 1,
    decreases n,
{
    if n < 10 {
        let ds = u64_digits(n);
        assert(ds =~= seq![digit_char(n)]);
        assert(ds.drop_last() =~= Seq::<char>::empty());
        assert(ds.last() == digit_char(n));
        assert(digits_val(Seq::<char>::empty()) == 0);
        assert(digits_val(ds) == digit_val(digit_char(n)));
    } else {
        lemma_u64_digits_props(n / 10);
        let a = u64_digits(n / 10);
        let c = digit_char(n % 10);
        let ds = u64_digits(n);
        assert(ds == a.push(c));
        assert(ds.drop_last() =~= a);
        assert(ds.last() == c);
        assert(digits_val(ds) == digits_val(a) * 10 + digit_val(c));
        assert(digit_val(c) == n % 10);
        assert(forall|k: int|
            0 <= k < ds.len() ==> is_digit(#[trigger] ds[k]) == if k < a.len() {
                is_digit(a[k])
            } else {
                is_digit(c)
            });
        assert(ds[0] == a[0]);
    }
}

/// A run of digits followed by a non-digit (or the end) is exactly where the
/// digit scan stops.
proof fn lemma_digits_end_run(s: Seq<char>, i: int, j: int)
    requires
        0 <= i <= j <= s.len(),
        forall|k: int| i <= k < j ==> is_digit(#[trigger] s[k]),
        j == s.len() || !is_digit(s[j]),
    ensures
        digits_end(s, i) == j,
    decreases j - i,
{
    if i == j {
    } else {
        lemma_digits_end_run(s, i + 1, j);
    }
}

/// The tail of a sequence from a position.
pub open spec fn tail_at(s: Seq<char>, i: int) -> Seq<char> {
    s.subrange(i, s.len() as int)
}

/// Consuming a literal that the tail starts with.
proof fn lemma_step_expect(s: Seq<char>, i: int, lit: Seq<char>, rest: Seq<char>)
    requires
        0 <= i <= s.len(),
        tail_at(s, i) == lit + rest,
    ensures
        expect_at(s, i, lit) == Some(i + lit.len()),
        tail_at(s, i + lit.len()) == rest,
        i + lit.len() <= s.len(),
{
    assert(tail_at(s, i).len() == s.len() - i);
    assert forall|k: int| 0 <= k < lit.len() implies s[i + k] == lit[k] by {
        assert(tail_at(s, i)[k] == s[i + k]);
        assert((lit + rest)[k] == lit[k]);
    }
    assert(s.subrange(i, i + lit.len()) =~= lit);
    assert forall|k: int| 0 <= k < rest.len() implies s[i + lit.len() + k] == rest[k] by {
        assert(tail_at(s, i)[lit.len() + k] == s[i + lit.len() + k]);
        assert((lit + rest)[lit.len() + k] == rest[k]);
    }
    assert(tail_at(s, i + lit.len()) =~= rest);
}

/// Consuming a canonical number that the tail starts with.
proof fn lemma_step_u64(s: Seq<char>, i: int, n: int, rest: Seq<char>)
    requires
        0 <= i <= s.len(),
        0 <= n <= u64::MAX,
        tail_at(s, i) == u64_digits(n) + rest,
        rest.len() > 0 ==> !is_digit(rest[0]),
    ensures
        parse_u64_at(s, i) == Some((n, i + u64_digits(n).len())),
        tail_at(s, i + u64_digits(n).len()) == rest,
        i + u64_digits(n).len() <= s.len(),
{
    let ds = u64_digits(n);
    lemma_u64_digits_props(n);
    assert(tail_at(s, i).len() == s.len() - i);
    let j = i + ds.len();
    assert forall|k: int| i <= k < j implies is_digit(#[trigger] s[k]) by {
        assert(s[k] == tail_at(s, i)[k - i]);
        assert(tail_at(s, i)[k - i] == ds[k - i]);
    }
    if j < s.len() {
        assert(s[j] == tail_at(s, i)[j - i]);
        assert(tail_at(s, i)[j - i] == rest[0]);
    }
    lemma_digits_end_run(s, i, j);
    assert forall|k: int| 0 <= k < ds.len() implies s[i + k] == ds[k] by {
        assert(tail_at(s, i)[k] == s[i + k]);
        assert((ds + rest)[k] == ds[k]);
    }
    assert(s.subrange(i, j) =~= ds);
    assert(s[i] == ds[0]);
    assert forall|k: int| 0 <= k < rest.len() implies s[j + k] == rest[k] by {
        assert(tail_at(s, i)[ds.len() + k] == s[j + k]);
        assert((ds + rest)[ds.len() + k] == rest[k]);
    }
    assert(tail_at(s, j) =~= rest);
}

/// Consuming a canonical signed number that the tail starts with.
proof fn lemma_step_i64(s: Seq<char>, i: int, n: int, rest: Seq<char>)
    requires
        0 <= i <= s.len(),
        i64::MIN <= n <= i64::MAX,
        tail_at(s, i) == int_chars(n) + rest,
        rest.len() > 0 ==> !is_digit(rest[0]),
    ensures
        parse_i64_at(s, i) == Some((n, i + int_chars(n).len())),
        tail_at(s, i + int_chars(n).len()) == rest,
        i + int_chars(n).len() <= s.len(),
{
    assert(tail_at(s, i).len() == s.len() - i);
    if n < 0 {
        let ds = u64_digits(-n);
        assert(int_chars(n) == seq!['-'] + ds);
        assert(s[i] == tail_at(s, i)[0]);
        assert((int_chars(n) + rest)[0] == int_chars(n)[0]);
        assert((seq!['-'] + ds)[0] == '-');
        assert(tail_at(s, i)[0] == '-');
        assert forall|k: int| 0 <= k < ds.len() + rest.len() implies tail_at(s, i + 1)[k] == (ds
            + rest)[k] by {
            assert(tail_at(s, i + 1)[k] == s[i + 1 + k]);
            assert(s[i + 1 + k] == tail_at(s, i)[1 + k]);
            assert((int_chars(n) + rest)[1 + k] == if 1 + k < int_chars(n).len() {
                int_chars(n)[1 + k]
            } else {
                rest[1 + k - int_chars(n).len()]
            });
            assert(int_chars(n)[0] == '-');
            if 1 + k < int_chars(n).len() {
                assert(int_chars(n)[1 + k] == (seq!['-'] + ds)[1 + k]);
                assert((seq!['-'] + ds)[1 + k] == ds[k]);
            }
        }
        assert(tail_at(s, i + 1) =~= ds + rest);
        lemma_step_u64(s, i + 1, -n, rest);
        lemma_u64_digits_props(-n);
        assert(parse_u64_at(s, i + 1) == Some((-n, i + 1 + ds.len())));
        assert(int_chars(n).len() == 1 + ds.len());
    } else {
        lemma_step_u64(s, i, n, rest);
        lemma_u64_digits_props(n);
        assert(s[i] == tail_at(s, i)[0]);
        assert(tail_at(s, i)[0] == u64_digits(n)[0]);
        assert(is_digit(s[i]));
        assert(s[i] != '-');
    }
}

/// Parsing the escaped form of a string, followed by the closing quote,
/// gives the string back.
proof fn lemma_parse_string_esc(s: Seq<char>, i: int, x: Seq<char>)
    requires
        0 <= i,
        i + esc_str(x).len() + 1 <= s.len(),
        forall|k: int| 0 <= k < esc_str(x).len() ==> s[i + k] == esc_str(x)[k],
        s[i + esc_str(x).len()] == '"',
    ensures
        parse_string_at(s, i) == Some((x, i + esc_str(x).len() + 1)),
    decreases x.len(),
{
    if x.len() == 0 {
        assert(esc_str(x).len() == 0);
        assert(s[i] == '"');
    } else {
        let c = x[0];
        let ec = esc_char(c);
        let tail = esc_str(x.drop_first());
        assert(esc_str(x) == ec + esc_str(x.drop_first()));
        assert(ec.len() >= 1);
        assert forall|k: int| 0 <= k < ec.len() implies s[i + k] == ec[k] by {
            assert(esc_str(x)[k] == (ec + tail)[k]);
        }
        assert forall|k: int| 0 <= k < tail.len() implies s[i + ec.len() + k] == tail[k] by {
            assert(esc_str(x)[ec.len() + k] == (ec + tail)[ec.len() + k]);
        }
        assert(s[i + ec.len() + tail.len()] == '"');
        lemma_parse_string_esc(s, i + ec.len(), x.drop_first());
        let r0 = parse_string_at(s, i + ec.len());
        assert(r0 == Some((x.drop_first(), i + ec.len() + tail.len() + 1)));
        let u = c as u32;
        if c == '"' {
            assert(s[i] == '\\' && s[i + 1] == '"');
            assert(unesc_short('"') == c);
            assert(seq![c] + x.drop_first() =~= x);
        } else if c == '\\' {
            assert(s[i] == '\\' && s[i + 1] == '\\');
            assert(unesc_short('\\') == c);
            assert(seq![c] + x.drop_first() =~= x);
        } else if u == 8 || u == 9 || u == 10 || u == 12 || u == 13 {
            assert(s[i] == '\\');
            vstd::utf8::char_u32_cast(c, u);
            if u == 8 {
                assert(s[i + 1] == 'b');
                assert(unesc_short('b') == char_of_code(8));
                assert(char_of_code(8) == c);
            } else if u == 9 {
                assert(s[i + 1] == 't');
                assert(unesc_short('t') == char_of_code(9));
                assert(char_of_code(9) == c);
            } else if u == 10 {
                assert(s[i + 1] == 'n');
                assert(unesc_short('n') == char_of_code(10));
                assert(char_of_code(10) == c);
            } else if u == 12 {
                assert(s[i + 1] == 'f');
                assert(unesc_short('f') == char_of_code(12));
                assert(char_of_code(12) == c);
            } else {
                assert(s[i + 1] == 'r');
                assert(unesc_short('r') == char_of_code(13));
                assert(char_of_code(13) == c);
            }
            assert(seq![c] + x.drop_first() =~= x);
        } else if u < 32 {
            assert(s[i] == '\\' && s[i + 1] == 'u' && s[i + 2] == '0' && s[i + 3] == '0');
            let hi = (u as int) / 16;
            let lo = (u as int) % 16;
            assert(s[i + 4] == hex_char(hi) && s[i + 5] == hex_char(lo));
            assert(0 <= hi < 2 && 0 <= lo < 16);
            assert(is_hex_lower(hex_char(hi)) && hex_val(hex_char(hi)) == hi);
            assert(is_hex_lower(hex_char(lo)) && hex_val(hex_char(lo)) == lo);
            assert(hi * 16 + lo == u as int);
            vstd::utf8::char_u32_cast(c, u);
            assert(((hi * 16 + lo) as u32) == u);
            assert(char_of_code(hi * 16 + lo) == (u as char));
            assert(char_of_code(hi * 16 + lo) == c);
            assert(seq![c] + x.drop_first() =~= x);
        } else {
            assert(ec == seq![c]);
            assert(s[i + 0] == ec[0]);
            assert(ec[0] == c);
            assert(s[i] == c);
            assert(s[i] != '"' && s[i] != '\\' && !((s[i] as u32) < 32));
            assert(seq![c] + x.drop_first() =~= x);
        }
    }
}

/// Consuming a JSON string that the tail starts with.
proof fn lemma_step_quoted(s: Seq<char>, i: int, x: Seq<char>, rest: Seq<char>)
    requires
        0 <= i <= s.len(),
        tail_at(s, i) == quoted(x) + rest,
    ensures
        parse_quoted_at(s, i) == Some((x, i + quoted(x).len())),
        tail_at(s, i + quoted(x).len()) == rest,
        i + quoted(x).len() <= s.len(),
{
    let q = quoted(x);
    let e = esc_str(x);
    assert(tail_at(s, i).len() == s.len() - i);
    assert forall|k: int| 0 <= k < q.len() implies s[i + k] == q[k] by {
        assert(tail_at(s, i)[k] == s[i + k]);
        assert((q + rest)[k] == q[k]);
    }
    assert(q[0] == '"');
    assert(s[i] == '"');
    assert forall|k: int| 0 <= k < e.len() implies s[i + 1 + k] == e[k] by {
        assert(q[1 + k] == (seq!['"'] + e + seq!['"'])[1 + k]);
        assert((seq!['"'] + e + seq!['"'])[1 + k] == e[k]);
    }
    assert(q[1 + e.len() as int] == '"');
    assert(s[i + 1 + e.len() as int] == '"');
    lemma_parse_string_esc(s, i + 1, x);
    assert forall|k: int| 0 <= k < rest.len() implies s[i + q.len() + k] == rest[k] by {
        assert(tail_at(s, i)[q.len() + k] == s[i + q.len() + k]);
        assert((q + rest)[q.len() + k] == rest[k]);
    }
    assert(tail_at(s, i + q.len()) =~= rest);
}

/// Round trip: parsing an encoded WAL entry gives exactly the entry back, so
/// a log written by the engine replays into exactly the accepted orders.
#[verifier::rlimit(100)]
#[verifier::spinoff_prover]
pub proof fn lemma_wal_entry_round_trip(e: WalEntryV)
    requires
        0 <= e.seq <= u64::MAX,
        i64::MIN <= e.price <= i64::MAX,
        i64::MIN <= e.qty <= i64::MAX,
    ensures
        parse_wal_entry_spec(encode_wal_entry_spec(e)) == Some(e),
{
    let s = encode_wal_entry_spec(e);
    let d1 = "{\"seq\":"@;
    let d2 = ",\"symbol\":"@;
    let d3 = ",\"side\":"@;
    let d4 = ",\"price\":"@;
    let d5 = ",\"qty\":"@;
    let d6 = ",\"client_order_id\":"@;
    let d7 = "}"@;
    let n1 = u64_digits(e.seq);
    let q2 = quoted(e.symbol);
    let q3 = quoted(e.side);
    let n4 = int_chars(e.price);
    let n5 = int_chars(e.qty);
    let q6 = quoted(e.cid);
    reveal_strlit("{\"seq\":");
    reveal_strlit(",\"symbol\":");
    reveal_strlit(",\"side\":");
    reveal_strlit(",\"price\":");
    reveal_strlit(",\"qty\":");
    reveal_strlit(",\"client_order_id\":");
    reveal_strlit("}");
    let r12 = Seq::<char>::empty();
    let r11 = q6 + (d7 + r12);
    let r10 = d6 + r11;
    let r9 = n5 + r10;
    let r8 = d5 + r9;
    let r7 = n4 + r8;
    let r6 = d4 + r7;
    let r5 = q3 + r6;
    let r4 = d3 + r5;
    let r3 = q2 + r4;
    let r2 = d2 + r3;
    let r1 = n1 + r2;
    assert(tail_at(s, 0) =~= s);
    assert(s =~= d1 + r1);
    lemma_step_expect(s, 0, d1, r1);
    let i1 = d1.len() as int;
    assert(r2[0] == d2[0]);
    assert(d2[0] == ',');
    assert(!is_digit(','));
    lemma_step_u64(s, i1, e.seq, r2);
    let i2 = i1 + n1.len();
    lemma_step_expect(s, i2, d2, r3);
    let i3 = i2 + d2.len();
    lemma_step_quoted(s, i3, e.symbol, r4);
    let i4 = i3 + q2.len();
    lemma_step_expect(s, i4, d3, r5);
    let i5 = i4 + d3.len();
    lemma_step_quoted(s, i5, e.side, r6);
    let i6 = i5 + q3.len();
    lemma_step_expect(s, i6, d4, r7);
    let i7 = i6 + d4.len();
    assert(r8[0] == d5[0]);
    assert(d5[0] == ',');
    lemma_step_i64(s, i7, e.price, r8);
    let i8 = i7 + n4.len();
    lemma_step_expect(s, i8, d5, r9);
    let i9 = i8 + d5.len();
    assert(r10[0] == d6[0]);
    assert(d6[0] == ',');
    lemma_step_i64(s, i9, e.qty, r10);
    let i10 = i9 + n5.len();
    lemma_step_expect(s, i10, d6, r11);
    let i11 = i10 + d6.len();
    lemma_step_quoted(s, i11, e.cid, d7 + r12);
    let i12 = i11 + q6.len();
    lemma_step_expect(s, i12, d7, r12);
    let i13 = i12 + d7.len();
    assert(tail_at(s, i13).len() == 0);
    assert(i13 == s.len());
    assert(parse_wal_entry_spec(s) == Some(
        WalEntryV {
            seq: e.seq,
            symbol: e.symbol,
            side: e.side,
            price: e.price,
            qty: e.qty,
            cid: e.cid,
        },
    ));
    assert(WalEntryV {
        seq: e.seq,
        symbol: e.symbol,
        side: e.side,
        price: e.price,
        qty: e.qty,
        cid: e.cid,
    } == e);
}

} // verus!
