use vstd::prelude::*;

use crate::digits::all_digits;
use crate::digits::digits_val;
use crate::digits::fixed_digits;
use crate::digits::is_digit_char;
use crate::digits::lemma_digits_val_bound;
use crate::digits::lemma_fixed_digits_are_digits;
use crate::digits::lemma_fixed_digits_ok;
use crate::digits::lemma_pow10_small;
use crate::digits::parse_fixed_digits;
use crate::digits::pow10;
use crate::digits::push_fixed_digits;
use crate::prompt::Prompt;
use crate::prompt::PromptModel;

verus! {

// The store line format: every record is one line of decimal digits.  The
// number key comes first as 20 digits; each of the five strings follows as a
// 20-digit character count and then 7 digits per character (the character's
// Unicode scalar value).  Lines are self-delimiting, keep field order, never
// contain a line break, and round-trip losslessly.

/// The Unicode scalar value of a character.
pub open spec fn char_code(c: char) -> nat {
    (c as u32) as nat
}

/// Exactly the codes that correspond to a character.
pub open spec fn is_scalar_code(v: nat) -> bool {
    v < 0xD800 || (0xE000 <= v && v <= 0x10FFFF)
}

/// The character with code `v` (meaningful when `is_scalar_code(v)`).
pub open spec fn code_char(v: nat) -> char {
    (v as u32) as char
}

/// The encoding of a string's characters: 7 digits for each.
pub open spec fn enc_chars(s: Seq<char>) -> Seq<char>
    decreases s.len(),
{
    if s.len() == 0 {
        Seq::empty()
    } else {
        fixed_digits(char_code(s[0]), 7) + enc_chars(s.subrange(1, s.len() as int))
    }
}

/// The encoding of a string: its length as 20 digits, then its characters.
pub open spec fn enc_str(s: Seq<char>) -> Seq<char> {
    fixed_digits(s.len(), 20) + enc_chars(s)
}

/// The store line for a record (without the trailing line break).
pub open spec fn line_of(p: PromptModel) -> Seq<char> {
    fixed_digits(p.number_key as nat, 20) + enc_str(p.number_text) + enc_str(p.unit_of_measure)
        + enc_str(p.place) + enc_str(p.adjective) + enc_str(p.noun)
}

/// Decodes `n` characters of `s`, 7 digits each, starting at `i`.
pub open spec fn sp_decode_chars(s: Seq<char>, i: nat, n: nat) -> Option<Seq<char>>
    decreases n,
{
    if n == 0 {
        Some(Seq::empty())
    } else if i + 7 > s.len() {
        None
    } else {
        let chunk = s.subrange(i as int, (i + 7) as int);
        if !all_digits(chunk) {
            None
        } else {
            let v = digits_val(chunk);
            if !is_scalar_code(v) {
                None
            } else {
                match sp_decode_chars(s, i + 7, (n - 1) as nat) {
                    None => None,
                    Some(rest) => Some(seq![code_char(v)] + rest),
                }
            }
        }
    }
}

/// Reads one encoded string starting at `i`; gives the string and the
/// position just after it.
pub open spec fn sp_parse_str(s: Seq<char>, i: nat) -> Option<(Seq<char>, nat)> {
    if i + 20 > s.len() {
        None
    } else {
        let lw = s.subrange(i as int, (i + 20) as int);
        if !all_digits(lw) {
            None
        } else {
            let n = digits_val(lw);
            if i + 20 + 7 * n > s.len() {
                None
            } else {
                match sp_decode_chars(s, i + 20, n) {
                    None => None,
                    Some(cs) => Some((cs, (i + 20 + 7 * n) as nat)),
                }
            }
        }
    }
}

/// Reads a whole store line; `None` on any malformed line.
pub open spec fn sp_parse_line(s: Seq<char>) -> Option<PromptModel> {
    if 20 > s.len() {
        None
    } else {
        let kw = s.subrange(0, 20);
        if !all_digits(kw) {
            None
        } else if digits_val(kw) > u64::MAX {
            None
        } else {
            match sp_parse_str(s, 20) {
                None => None,
                Some((number_text, i1)) => match sp_parse_str(s, i1) {
                    None => None,
                    Some((unit_of_measure, i2)) => match sp_parse_str(s, i2) {
                        None => None,
                        Some((place, i3)) => match sp_parse_str(s, i3) {
                            None => None,
                            Some((adjective, i4)) => match sp_parse_str(s, i4) {
                                None => None,
                                Some((noun, i5)) => if i5 == s.len() {
                                    Some(
                                        PromptModel {
                                            number_key: digits_val(kw) as u64,
                                            number_text,
                                            unit_of_measure,
                                            place,
                                            adjective,
                                            noun,
                                        },
                                    )
                                } else {
                                    None
                                },
                            },
                        },
                    },
                },
            }
        }
    }
}

/// A character's code is a scalar code and stays below `pow10(7)`.
pub proof fn lemma_char_code_scalar(c: char)
    ensures
        is_scalar_code(char_code(c)),
        char_code(c) < pow10(7),
        code_char(char_code(c)) == c,
{
    vstd::utf8::char_is_scalar(c);
    lemma_pow10_small();
    vstd::utf8::char_u32_cast(c, c as u32);
}

/// The character encoding is 7 digits per character.
pub proof fn lemma_enc_chars_shape(s: Seq<char>)
    ensures
        enc_chars(s).len() == 7 * s.len(),
        all_digits(enc_chars(s)),
    decreases s.len(),
{
    if s.len() == 0 {
    } else {
        let head = fixed_digits(char_code(s[0]), 7);
        let tail = s.subrange(1, s.len() as int);
        lemma_fixed_digits_are_digits(char_code(s[0]), 7);
        lemma_enc_chars_shape(tail);
        assert forall|i: int| 0 <= i < enc_chars(s).len() implies is_digit_char(
            #[trigger] enc_chars(s)[i],
        ) by {
            if i < 7 {
                assert(enc_chars(s)[i] == head[i]);
            } else {
                assert(enc_chars(s)[i] == enc_chars(tail)[i - 7]);
            }
        }
    }
}

/// A string encoding is all digits, of the expected length.
pub proof fn lemma_enc_str_shape(s: Seq<char>)
    ensures
        enc_str(s).len() == 20 + 7 * s.len(),
        all_digits(enc_str(s)),
{
    lemma_fixed_digits_are_digits(s.len(), 20);
    lemma_enc_chars_shape(s);
    assert forall|i: int| 0 <= i < enc_str(s).len() implies is_digit_char(
        #[trigger] enc_str(s)[i],
    ) by {
        if i < 20 {
            assert(enc_str(s)[i] == fixed_digits(s.len(), 20)[i]);
        } else {
            assert(enc_str(s)[i] == enc_chars(s)[i - 20]);
        }
    }
}

/// A whole store line is digits only — in particular it holds no line break.
pub proof fn lemma_line_of_shape(p: PromptModel)
    ensures
        line_of(p).len() == 120 + 7 * (p.number_text.len() + p.unit_of_measure.len()
            + p.place.len() + p.adjective.len() + p.noun.len()),
        all_digits(line_of(p)),
        forall|i: int| 0 <= i < line_of(p).len() ==> #[trigger] line_of(p)[i] != '\n',
{
    let u = line_of(p);
    lemma_fixed_digits_are_digits(p.number_key as nat, 20);
    lemma_enc_str_shape(p.number_text);
    lemma_enc_str_shape(p.unit_of_measure);
    lemma_enc_str_shape(p.place);
    lemma_enc_str_shape(p.adjective);
    lemma_enc_str_shape(p.noun);
    let a0 = fixed_digits(p.number_key as nat, 20);
    let a1 = enc_str(p.number_text);
    let a2 = enc_str(p.unit_of_measure);
    let a3 = enc_str(p.place);
    let a4 = enc_str(p.adjective);
    let a5 = enc_str(p.noun);
    assert forall|i: int| 0 <= i < u.len() implies is_digit_char(#[trigger] u[i]) by {
        let b1 = a0.len();
        let b2 = b1 + a1.len();
        let b3 = b2 + a2.len();
        let b4 = b3 + a3.len();
        let b5 = b4 + a4.len();
        if i < b1 {
            assert(u[i] == a0[i]);
        } else if i < b2 {
            assert(u[i] == a1[i - b1]);
        } else if i < b3 {
            assert(u[i] == a2[i - b2]);
        } else if i < b4 {
            assert(u[i] == a3[i - b3]);
        } else if i < b5 {
            assert(u[i] == a4[i - b4]);
        } else {
            assert(u[i] == a5[i - b5]);
        }
    }
    assert forall|i: int| 0 <= i < u.len() implies #[trigger] u[i] != '\n' by {
        assert(is_digit_char(u[i]));
    }
}

/// Decoding reads back exactly the characters that were encoded.
proof fn lemma_decode_enc_chars(u: Seq<char>, i: nat, s: Seq<char>)
    requires
        i + 7 * s.len() <= u.len(),
        u.subrange(i as int, (i + 7 * s.len()) as int) == enc_chars(s),
    ensures
        sp_decode_chars(u, i, s.len()) == Some(s),
    decreases s.len(),
{
    if s.len() == 0 {
        assert(Seq::<char>::empty() =~= s);
    } else {
        let head = fixed_digits(char_code(s[0]), 7);
        let tail = s.subrange(1, s.len() as int);
        lemma_char_code_scalar(s[0]);
        lemma_fixed_digits_ok(char_code(s[0]), 7);
        lemma_enc_chars_shape(tail);
        let w = u.subrange(i as int, (i + 7 * s.len()) as int);
        let chunk = u.subrange(i as int, (i + 7) as int);
        assert forall|k: int| 0 <= k < 7 implies chunk[k] == head[k] by {
            assert(w[k] == enc_chars(s)[k]);
        }
        assert(chunk =~= head);
        assert(digits_val(chunk) == char_code(s[0]));
        let w2 = u.subrange((i + 7) as int, (i + 7 + 7 * tail.len()) as int);
        assert forall|k: int| 0 <= k < 7 * tail.len() implies w2[k] == enc_chars(tail)[k] by {
            assert(w[7 + k] == enc_chars(s)[7 + k]);
            assert(enc_chars(s)[7 + k] == enc_chars(tail)[k]);
        }
        assert(w2 =~= enc_chars(tail));
        lemma_decode_enc_chars(u, i + 7, tail);
        assert(seq![code_char(char_code(s[0]))] + tail =~= s);
    }
}

/// Parsing one encoded string from within a longer sequence reads back the
/// string and stops right after it.
proof fn lemma_parse_str_enc(u: Seq<char>, i: nat, s: Seq<char>)
    requires
        s.len() < pow10(20),
        i + 20 + 7 * s.len() <= u.len(),
        u.subrange(i as int, (i + 20 + 7 * s.len()) as int) == enc_str(s),
    ensures
        sp_parse_str(u, i) == Some((s, (i + 20 + 7 * s.len()) as nat)),
{
    lemma_fixed_digits_ok(s.len(), 20);
    lemma_enc_chars_shape(s);
    let w = u.subrange(i as int, (i + 20 + 7 * s.len()) as int);
    let lw = u.subrange(i as int, (i + 20) as int);
    assert forall|k: int| 0 <= k < 20 implies lw[k] == fixed_digits(s.len(), 20)[k] by {
        assert(w[k] == enc_str(s)[k]);
    }
    assert(lw =~= fixed_digits(s.len(), 20));
    assert(digits_val(lw) == s.len());
    let w2 = u.subrange((i + 20) as int, (i + 20 + 7 * s.len()) as int);
    assert forall|k: int| 0 <= k < 7 * s.len() implies w2[k] == enc_chars(s)[k] by {
        assert(w[20 + k] == enc_str(s)[20 + k]);
        assert(enc_str(s)[20 + k] == enc_chars(s)[k]);
    }
    assert(w2 =~= enc_chars(s));
    lemma_decode_enc_chars(u, i + 20, s);
}

/// Every string of the record is short enough for its length prefix — true
/// of any record a machine can hold.
pub open spec fn prompt_fits(p: PromptModel) -> bool {
    &&& p.number_text.len() <= u64::MAX
    &&& p.unit_of_measure.len() <= u64::MAX
    &&& p.place.len() <= u64::MAX
    &&& p.adjective.len() <= u64::MAX
    &&& p.noun.len() <= u64::MAX
}

/// Round trip: parsing the line written for a record gives the record back.
/// Holds for every record whose fields fit in memory at all.
#[verifier::rlimit(60)]
pub proof fn lemma_line_round_trip(p: PromptModel)
    requires
        prompt_fits(p),
    ensures
        sp_parse_line(line_of(p)) == Some(p),
{
    lemma_pow10_small();
    let u = line_of(p);
    let a0 = fixed_digits(p.number_key as nat, 20);
    let a1 = enc_str(p.number_text);
    let a2 = enc_str(p.unit_of_measure);
    let a3 = enc_str(p.place);
    let a4 = enc_str(p.adjective);
    let a5 = enc_str(p.noun);
    lemma_fixed_digits_ok(p.number_key as nat, 20);
    lemma_enc_str_shape(p.number_text);
    lemma_enc_str_shape(p.unit_of_measure);
    lemma_enc_str_shape(p.place);
    lemma_enc_str_shape(p.adjective);
    lemma_enc_str_shape(p.noun);
    let b1 = a0.len() as nat;
    let b2 = (b1 + a1.len()) as nat;
    let b3 = (b2 + a2.len()) as nat;
    let b4 = (b3 + a3.len()) as nat;
    let b5 = (b4 + a4.len()) as nat;
    let b6 = (b5 + a5.len()) as nat;
    assert(u.len() == b6);
    assert(u.subrange(0, 20) =~= a0);
    assert(digits_val(u.subrange(0, 20)) == p.number_key as nat);
    assert(u.subrange(b1 as int, b2 as int) =~= a1);
    lemma_parse_str_enc(u, b1, p.number_text);
    assert(u.subrange(b2 as int, b3 as int) =~= a2);
    lemma_parse_str_enc(u, b2, p.unit_of_measure);
    assert(u.subrange(b3 as int, b4 as int) =~= a3);
    lemma_parse_str_enc(u, b3, p.place);
    assert(u.subrange(b4 as int, b5 as int) =~= a4);
    lemma_parse_str_enc(u, b4, p.adjective);
    assert(u.subrange(b5 as int, b6 as int) =~= a5);
    lemma_parse_str_enc(u, b5, p.noun);
}

/// A position returned by `sp_parse_str` lies at least 20 past the start and
/// within the sequence.
pub proof fn lemma_parse_str_bounds(s: Seq<char>, i: nat)
    requires
        sp_parse_str(s, i) is Some,
    ensures
        i + 20 <= sp_parse_str(s, i).unwrap().1 <= s.len(),
{
}

/// Any sequence that parses as a store line has at least the 120 characters
/// of its six length and key blocks.
pub proof fn lemma_parse_line_min_len(s: Seq<char>)
    requires
        sp_parse_line(s) is Some,
    ensures
        s.len() >= 120,
{
    let i1 = sp_parse_str(s, 20).unwrap().1;
    let i2 = sp_parse_str(s, i1).unwrap().1;
    let i3 = sp_parse_str(s, i2).unwrap().1;
    let i4 = sp_parse_str(s, i3).unwrap().1;
    let i5 = sp_parse_str(s, i4).unwrap().1;
    lemma_parse_str_bounds(s, 20);
    lemma_parse_str_bounds(s, i1);
    lemma_parse_str_bounds(s, i2);
    lemma_parse_str_bounds(s, i3);
    lemma_parse_str_bounds(s, i4);
}

/// The characters of a string slice, in order.
pub(crate) fn chars_of(s: &str) -> (r: Vec<char>)
    ensures
        r@ == s@,
{
    let n = s.unicode_len();
    let mut r: Vec<char> = Vec::new();
    let mut i: usize = 0;
    proof {
        assert(s@.subrange(0, 0) =~= Seq::<char>::empty());
    }
    while i < n
        invariant
            i <= n,
            n == s@.len(),
            r@ == s@.subrange(0, i as int),
        decreases n - i,
    {
        r.push(s.get_char(i));
        proof {
            assert(s@.subrange(0, i + 1) =~= s@.subrange(0, i as int).push(s@[i as int]));
        }
        i = i + 1;
    }
    proof {
        assert(s@.subrange(0, n as int) =~= s@);
    }
    r
}

/// Relies on `String::push`: appends exactly the given character.
#[verifier::external_body]
fn push_char(s: &mut String, c: char)
    ensures
        final (s)@ == old(s)@.push(c),
{
    s.push(c)
}

/// The string of the given characters, in order.
fn string_of(cs: &Vec<char>) -> (r: String)
    ensures
        r@ == cs@,
{
    let mut r = String::new();
    let mut i: usize = 0;
    proof {
        assert(cs@.subrange(0, 0) =~= Seq::<char>::empty());
    }
    while i < cs.len()
        invariant
            i <= cs.len(),
            r@ == cs@.subrange(0, i as int),
        decreases cs.len() - i,
    {
        push_char(&mut r, cs[i]);
        proof {
            assert(cs@.subrange(0, i + 1) =~= cs@.subrange(0, i as int).push(cs@[i as int]));
        }
        i = i + 1;
    }
    proof {
        assert(cs@.subrange(0, cs@.len() as int) =~= cs@);
    }
    r
}

/// Relies on `char::from_u32`: `Some` exactly on Unicode scalar values, and
/// the returned character carries the given code.
#[verifier::external_body]
fn char_from_code(v: u32) -> (r: Option<char>)
    ensures
        r is Some <==> is_scalar_code(v as nat),
        r matches Some(c) ==> c as u32 == v,
{
    char::from_u32(v)
}

/// `enc_chars` grows by one 7-digit block per appended character.
proof fn lemma_enc_chars_snoc(s: Seq<char>, c: char)
    ensures
        enc_chars(s.push(c)) == enc_chars(s) + fixed_digits(char_code(c), 7),
    decreases s.len(),
{
    let sc = s.push(c);
    lemma_fixed_digits_are_digits(char_code(c), 7);
    if s.len() == 0 {
        assert(sc[0] == c);
        assert(sc.subrange(1, sc.len() as int) =~= Seq::<char>::empty());
        assert(enc_chars(sc.subrange(1, sc.len() as int)) == Seq::<char>::empty());
        assert(enc_chars(sc) == fixed_digits(char_code(c), 7) + Seq::<char>::empty());
        assert(enc_chars(s) == Seq::<char>::empty());
        assert(enc_chars(sc) =~= enc_chars(s) + fixed_digits(char_code(c), 7));
    } else {
        lemma_fixed_digits_are_digits(char_code(s[0]), 7);
        let tail = s.subrange(1, s.len() as int);
        assert(sc.subrange(1, sc.len() as int) =~= tail.push(c));
        assert(sc[0] == s[0]);
        lemma_enc_chars_snoc(tail, c);
        assert(enc_chars(sc) == fixed_digits(char_code(s[0]), 7) + (enc_chars(tail)
            + fixed_digits(char_code(c), 7)));
        assert(fixed_digits(char_code(s[0]), 7) + (enc_chars(tail) + fixed_digits(
            char_code(c),
            7,
        )) =~= enc_chars(s) + fixed_digits(char_code(c), 7));
    }
}

/// Appends the encoding of `s` to `out`.
fn push_str_enc(out: &mut Vec<char>, s: &String)
    ensures
        final (out)@ == old(out)@ + enc_str(s@),
{
    let cs = chars_of(s.as_str());
    proof {
        lemma_pow10_small();
        assert((u64::MAX as nat) < pow10(20));
    }
    push_fixed_digits(out, cs.len() as u64, 20);
    let ghost mid = out@;
    let mut j: usize = 0;
    proof {
        assert(cs@.subrange(0, 0) =~= Seq::<char>::empty());
    }
    while j < cs.len()
        invariant
            j <= cs.len(),
            cs@ == s@,
            mid == old(out)@ + fixed_digits(s@.len(), 20),
            out@ == mid + enc_chars(cs@.subrange(0, j as int)),
        decreases cs.len() - j,
    {
        let c = cs[j];
        proof {
            lemma_char_code_scalar(c);
        }
        push_fixed_digits(out, (c as u32) as u64, 7);
        proof {
            let pre = cs@.subrange(0, j as int);
            assert(cs@.subrange(0, j + 1) =~= pre.push(c));
            lemma_enc_chars_snoc(pre, c);
            assert(mid + enc_chars(pre) + fixed_digits(char_code(c), 7) =~= mid + enc_chars(
                cs@.subrange(0, j + 1),
            ));
        }
        j = j + 1;
    }
    proof {
        assert(cs@.subrange(0, cs@.len() as int) =~= cs@);
    }
}

/// Writes the store line for a record (without the trailing line break).
pub fn serialize_prompt(p: &Prompt) -> (r: String)
    ensures
        r@ == line_of(p@),
{
    let mut out: Vec<char> = Vec::new();
    proof {
        lemma_pow10_small();
        assert(out@ =~= Seq::<char>::empty());
    }
    push_fixed_digits(&mut out, p.number_key, 20);
    push_str_enc(&mut out, &p.number_text);
    push_str_enc(&mut out, &p.unit_of_measure);
    push_str_enc(&mut out, &p.place);
    push_str_enc(&mut out, &p.adjective);
    push_str_enc(&mut out, &p.noun);
    proof {
        assert(out@ =~= line_of(p@));
    }
    string_of(&out)
}

/// Reads one encoded string starting at `i`.
fn parse_str_at(cs: &Vec<char>, i: usize) -> (r: Option<(String, usize)>)
    requires
        i <= cs.len(),
    ensures
        r is Some <==> sp_parse_str(cs@, i as nat) is Some,
        r matches Some(p) ==> sp_parse_str(cs@, i as nat) == Some((p.0@, p.1 as nat)),
{
    if cs.len() - i < 20 {
        return None;
    }
    let n128 = match parse_fixed_digits(cs, i, 20) {
        None => {
            return None;
        },
        Some(v) => v,
    };
    proof {
        lemma_digits_val_bound(cs@.subrange(i as int, i + 20));
        lemma_pow10_small();
    }
    let remaining: usize = cs.len() - i - 20;
    if 7 * n128 > remaining as u128 {
        proof {
            assert(sp_parse_str(cs@, i as nat) is None);
        }
        return None;
    }
    proof {
        assert(n128 <= 7 * n128);
        assert(n128 <= usize::MAX as u128);
    }
    let n: usize = n128 as usize;
    let ghost start = (i + 20) as nat;
    proof {
        assert(n as nat == digits_val(cs@.subrange(i as int, i + 20)));
        assert(i + 20 + 7 * (n as nat) <= cs@.len());
    }
    let mut acc: Vec<char> = Vec::new();
    let mut j: usize = 0;
    proof {
        assert(acc@ =~= Seq::<char>::empty());
        if sp_decode_chars(cs@, start, n as nat) is Some {
            let full = sp_decode_chars(cs@, start, n as nat).unwrap();
            assert(acc@ + full =~= full);
        }
    }
    while j < n
        invariant
            j <= n,
            i + 20 + 7 * n <= cs.len(),
            start == i + 20,
            all_digits(cs@.subrange(i as int, i + 20)),
            digits_val(cs@.subrange(i as int, i + 20)) == n as nat,
            acc@.len() == j,
            sp_decode_chars(cs@, start, n as nat) is Some <==> sp_decode_chars(
                cs@,
                (start + 7 * j) as nat,
                (n - j) as nat,
            ) is Some,
            sp_decode_chars(cs@, start, n as nat) matches Some(full) ==> sp_decode_chars(
                cs@,
                (start + 7 * j) as nat,
                (n - j) as nat,
            ) matches Some(rest) && full == acc@ + rest,
        decreases n - j,
    {
        let pos: usize = i + 20 + 7 * j;
        let v = match parse_fixed_digits(cs, pos, 7) {
            None => {
                proof {
                    assert(sp_decode_chars(cs@, (start + 7 * j) as nat, (n - j) as nat) is None);
                    assert(sp_decode_chars(cs@, start, n as nat) is None);
                    assert(sp_parse_str(cs@, i as nat) is None);
                }
                return None;
            },
            Some(v) => v,
        };
        proof {
            lemma_digits_val_bound(cs@.subrange(pos as int, pos + 7));
            lemma_pow10_small();
        }
        let c = match char_from_code(v as u32) {
            None => {
                proof {
                    assert(sp_decode_chars(cs@, (start + 7 * j) as nat, (n - j) as nat) is None);
                    assert(sp_decode_chars(cs@, start, n as nat) is None);
                    assert(sp_parse_str(cs@, i as nat) is None);
                }
                return None;
            },
            Some(c) => c,
        };
        proof {
            vstd::utf8::char_u32_cast(c, v as u32);
            assert(code_char(digits_val(cs@.subrange(pos as int, pos + 7))) == c);
            let rest0 = sp_decode_chars(cs@, (start + 7 * j) as nat, (n - j) as nat);
            let rest1 = sp_decode_chars(cs@, (start + 7 * (j + 1)) as nat, (n - (j + 1)) as nat);
            assert(rest0 matches Some(r0) ==> rest1 matches Some(r1) && r0 == seq![c] + r1);
            if sp_decode_chars(cs@, start, n as nat) is Some {
                let full = sp_decode_chars(cs@, start, n as nat).unwrap();
                let r0 = rest0.unwrap();
                let r1 = rest1.unwrap();
                assert(full == acc@ + r0);
                assert(acc@ + (seq![c] + r1) =~= acc@.push(c) + r1);
            }
        }
        acc.push(c);
        j = j + 1;
    }
    proof {
        if sp_decode_chars(cs@, start, n as nat) is Some {
            let full = sp_decode_chars(cs@, start, n as nat).unwrap();
            assert(sp_decode_chars(cs@, (start + 7 * n) as nat, 0) == Some(Seq::<char>::empty()));
            assert(full =~= acc@);
        }
    }
    let out = string_of(&acc);
    let next: usize = i + 20 + 7 * n;
    proof {
        assert(sp_parse_str(cs@, i as nat) == Some((out@, next as nat)));
    }
    Some((out, next))
}

/// Reads a whole store line given as characters; `None` on any malformed
/// line.
pub fn parse_prompt_chars(cs: &Vec<char>) -> (r: Option<Prompt>)
    ensures
        r is Some <==> sp_parse_line(cs@) is Some,
        r matches Some(p) ==> sp_parse_line(cs@) == Some(p@),
{
    if cs.len() < 20 {
        return None;
    }
    let k128 = match parse_fixed_digits(cs, 0, 20) {
        None => {
            return None;
        },
        Some(v) => v,
    };
    if k128 > u64::MAX as u128 {
        return None;
    }
    let number_key: u64 = k128 as u64;
    let (number_text, i1) = match parse_str_at(cs, 20) {
        None => {
            return None;
        },
        Some(p) => p,
    };
    proof {
        lemma_parse_str_bounds(cs@, 20);
    }
    let (unit_of_measure, i2) = match parse_str_at(cs, i1) {
        None => {
            return None;
        },
        Some(p) => p,
    };
    proof {
        lemma_parse_str_bounds(cs@, i1 as nat);
    }
    let (place, i3) = match parse_str_at(cs, i2) {
        None => {
            return None;
        },
        Some(p) => p,
    };
    proof {
        lemma_parse_str_bounds(cs@, i2 as nat);
    }
    let (adjective, i4) = match parse_str_at(cs, i3) {
        None => {
            return None;
        },
        Some(p) => p,
    };
    proof {
        lemma_parse_str_bounds(cs@, i3 as nat);
    }
    let (noun, i5) = match parse_str_at(cs, i4) {
        None => {
            return None;
        },
        Some(p) => p,
    };
    if i5 != cs.len() {
        return None;
    }
    Some(Prompt { number_key, number_text, unit_of_measure, place, adjective, noun })
}

/// Reads a whole store line; `None` on any malformed line.
pub fn parse_prompt(line: &str) -> (r: Option<Prompt>)
    ensures
        r is Some <==> sp_parse_line(line@) is Some,
        r matches Some(p) ==> sp_parse_line(line@) == Some(p@),
{
    let cs = chars_of(line);
    parse_prompt_chars(&cs)
}

} // verus!
