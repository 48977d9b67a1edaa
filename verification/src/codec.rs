//! The persisted store image: a reversible, text-safe serialization of the
//! store and its exact parser.

use crate::crypto_utils::bytes_to_string;
use crate::order::str_eq;
use crate::store::entries_view;
use crate::store::has_name;
use crate::store::opt_bytes_view;
use crate::store::Entry;
use crate::store::EntryView;
use crate::store::Store;
use crate::store::StoreView;
use crate::VaultError;
use vstd::prelude::*;
use vstd::utf8::decode_utf8;
use vstd::utf8::encode_utf8;
use vstd::utf8::valid_utf8;

verus! {

/// The lower-case hex digit of a value below 16, as an ASCII byte.
pub open spec fn hex_digit(n: u8) -> u8
    recommends
        n < 16,
{
    if n < 10 {
        (0x30 + n) as u8
    } else {
        (0x61 + (n - 10)) as u8
    }
}

/// The two-digit lower-case hex form of one byte.
pub open spec fn hex_byte(b: u8) -> Seq<u8> {
    seq![hex_digit(b / 16), hex_digit(b % 16)]
}

/// The hex form of a byte sequence: two ASCII digits for each byte.
pub open spec fn hex_of(s: Seq<u8>) -> Seq<u8>
    decreases s.len(),
{
    if s.len() == 0 {
        seq![]
    } else {
        hex_byte(s[0]) + hex_of(s.drop_first())
    }
}

/// Hex-encodes a byte string.
pub fn hex_encode(input: &[u8]) -> (r: Vec<u8>)
    ensures
        r@ == hex_of(input@),
        r@.len() == 2 * input@.len(),
{
    proof {
        lemma_hex_of_len(input@);
    }
    let mut out: Vec<u8> = Vec::new();
    let mut i: usize = 0;
    while i < input.len()
        invariant
            0 <= i <= input@.len(),
            out@ == hex_of(input@.subrange(0, i as int)),
        decreases input@.len() - i,
    {
        let b = input[i];
        let hi = b / 16;
        let lo = b % 16;
        out.push(if hi < 10 {
            0x30 + hi
        } else {
            0x61 + (hi - 10)
        });
        out.push(if lo < 10 {
            0x30 + lo
        } else {
            0x61 + (lo - 10)
        });
        proof {
            lemma_hex_of_snoc(input@.subrange(0, i as int), input@[i as int]);
            assert(input@.subrange(0, i as int).push(input@[i as int]) =~= input@.subrange(
                0,
                i + 1,
            ));
        }
        i = i + 1;
    }
    proof {
        assert(input@.subrange(0, input@.len() as int) =~= input@);
    }
    out
}

/// The length of a hex encoding is twice the length of the input.
pub proof fn lemma_hex_of_len(s: Seq<u8>)
    ensures
        hex_of(s).len() == 2 * s.len(),
    decreases s.len(),
{
    if s.len() > 0 {
        lemma_hex_of_len(s.drop_first());
    }
}

/// Appending one byte appends its two hex digits.
pub proof fn lemma_hex_of_snoc(s: Seq<u8>, b: u8)
    ensures
        hex_of(s.push(b)) == hex_of(s) + hex_byte(b),
    decreases s.len(),
{
    if s.len() == 0 {
        assert(s.push(b)[0] == b);
        assert(s.push(b).drop_first() =~= s);
        assert(hex_of(s.push(b)) =~= hex_byte(b));
        assert(hex_of(s) + hex_byte(b) =~= hex_byte(b));
    } else {
        assert(s.push(b)[0] == s[0]);
        assert(s.push(b).drop_first() =~= s.drop_first().push(b));
        lemma_hex_of_snoc(s.drop_first(), b);
        assert(hex_of(s.push(b)) =~= hex_of(s) + hex_byte(b));
    }
}

/// ASCII newline, the line terminator of the store image.
pub const LINE_SEP: u8 = 0x0a;

/// ASCII space, the field separator inside an entry line.
pub const FIELD_SEP: u8 = 0x20;

/// ASCII hyphen, the token standing for an absent optional field.
pub const ABSENT: u8 = 0x2d;

/// True of the bytes hex encodings are made of: `0`..`9` and `a`..`f`.
pub open spec fn is_hex_digit(b: u8) -> bool {
    (0x30 <= b <= 0x39) || (0x61 <= b <= 0x66)
}

/// The value of one hex digit.
pub open spec fn hex_val(b: u8) -> u8
    recommends
        is_hex_digit(b),
{
    if b <= 0x39 {
        (b - 0x30) as u8
    } else {
        (b - 0x61 + 10) as u8
    }
}

/// The bytes a hex string denotes: two digits a byte, `None` on an odd
/// length or a byte that is no lower-case hex digit.
pub open spec fn parse_hex(s: Seq<u8>) -> Option<Seq<u8>>
    decreases s.len(),
{
    if s.len() == 0 {
        Some(Seq::empty())
    } else if s.len() == 1 {
        None
    } else if !is_hex_digit(s[0]) || !is_hex_digit(s[1]) {
        None
    } else {
        match parse_hex(s.subrange(2, s.len() as int)) {
            None => None,
            Some(rest) => Some(seq![(hex_val(s[0]) * 16 + hex_val(s[1])) as u8] + rest),
        }
    }
}

/// Every byte of a hex encoding is a hex digit.
pub proof fn lemma_hex_of_digits(v: Seq<u8>)
    ensures
        forall|k: int| 0 <= k < hex_of(v).len() ==> is_hex_digit(#[trigger] hex_of(v)[k]),
    decreases v.len(),
{
    if v.len() > 0 {
        lemma_hex_of_digits(v.drop_first());
        assert(forall|k: int|
            2 <= k < hex_of(v).len() ==> hex_of(v)[k] == hex_of(v.drop_first())[k - 2]);
        assert(is_hex_digit(hex_digit(v[0] / 16)));
        assert(is_hex_digit(hex_digit(v[0] % 16)));
    }
}

/// Hex decoding undoes hex encoding.
pub proof fn lemma_parse_hex_of(v: Seq<u8>)
    ensures
        parse_hex(hex_of(v)) == Some(v),
    decreases v.len(),
{
    if v.len() == 0 {
        assert(hex_of(v).len() == 0);
        assert(Some(Seq::<u8>::empty()) == Some(v)) by {
            assert(Seq::<u8>::empty() =~= v);
        }
    } else {
        let h = hex_of(v);
        let b = v[0];
        assert(h == hex_byte(b) + hex_of(v.drop_first()));
        lemma_hex_of_len(v.drop_first());
        assert(h.len() >= 2);
        assert(h[0] == hex_digit(b / 16));
        assert(h[1] == hex_digit(b % 16));
        assert(is_hex_digit(h[0]));
        assert(is_hex_digit(h[1]));
        assert(hex_val(hex_digit(b / 16)) == b / 16);
        assert(hex_val(hex_digit(b % 16)) == b % 16);
        assert((hex_val(h[0]) * 16 + hex_val(h[1])) as u8 == b);
        assert(h.subrange(2, h.len() as int) =~= hex_of(v.drop_first()));
        lemma_parse_hex_of(v.drop_first());
        assert(seq![b] + v.drop_first() =~= v);
    }
}

/// The position of the first occurrence of a byte, if any.
pub open spec fn find_byte(s: Seq<u8>, c: u8) -> Option<int>
    decreases s.len(),
{
    if s.len() == 0 {
        None
    } else if s[0] == c {
        Some(0)
    } else {
        match find_byte(s.drop_first(), c) {
            None => None,
            Some(i) => Some(i + 1),
        }
    }
}

/// What `find_byte` finds: the first occurrence, or none at all.
pub proof fn lemma_find_byte(s: Seq<u8>, c: u8)
    ensures
        (match find_byte(s, c) {
            Some(i) => 0 <= i < s.len() && s[i] == c && (forall|j: int| 0 <= j < i ==> s[j] != c),
            None => forall|j: int| 0 <= j < s.len() ==> s[j] != c,
        }),
    decreases s.len(),
{
    if s.len() > 0 && s[0] != c {
        lemma_find_byte(s.drop_first(), c);
        assert(forall|j: int| 1 <= j < s.len() ==> s[j] == s.drop_first()[j - 1]);
    }
}

/// In `t ++ [c] ++ rest` with `c` absent from `t`, the first occurrence of
/// `c` is right after `t`.
pub proof fn lemma_find_byte_concat(t: Seq<u8>, c: u8, rest: Seq<u8>)
    requires
        forall|j: int| 0 <= j < t.len() ==> t[j] != c,
    ensures
        find_byte(t + seq![c] + rest, c) == Some(t.len() as int),
    decreases t.len(),
{
    let s = t + seq![c] + rest;
    if t.len() == 0 {
        assert(s[0] == c);
    } else {
        assert(s[0] == t[0]);
        assert(s.drop_first() =~= t.drop_first() + seq![c] + rest);
        assert(forall|j: int| 0 <= j < t.drop_first().len() ==> t.drop_first()[j] == t[j + 1]);
        lemma_find_byte_concat(t.drop_first(), c, rest);
    }
}

/// The first line of the image and everything after its terminator.
pub open spec fn take_line(s: Seq<u8>) -> Option<(Seq<u8>, Seq<u8>)> {
    match find_byte(s, LINE_SEP) {
        None => None,
        Some(i) => Some((s.subrange(0, i), s.subrange(i + 1, s.len() as int))),
    }
}

/// Taking a line from `t ++ [newline] ++ rest` with no newline in `t`
/// yields `t` and `rest`.
pub proof fn lemma_take_line_concat(t: Seq<u8>, rest: Seq<u8>)
    requires
        forall|j: int| 0 <= j < t.len() ==> t[j] != LINE_SEP,
    ensures
        take_line(t + seq![LINE_SEP] + rest) == Some((t, rest)),
{
    let s = t + seq![LINE_SEP] + rest;
    lemma_find_byte_concat(t, LINE_SEP, rest);
    assert(s.subrange(0, t.len() as int) =~= t);
    assert(s.subrange(t.len() as int + 1, s.len() as int) =~= rest);
}

/// The magic first line of a store image.
pub open spec fn magic() -> Seq<u8> {
    seq![0x70u8, 0x76u8, 0x31u8]
}

/// The token of an optional byte field: its hex form, or a hyphen when the
/// field is absent.
pub open spec fn ser_opt(o: Option<Seq<u8>>) -> Seq<u8> {
    match o {
        Option::None => seq![ABSENT],
        Option::Some(v) => hex_of(v),
    }
}

/// One entry's line body: the hex of the name's UTF-8 bytes, of the
/// password ciphertext, of the username ciphertext (or a hyphen), and of
/// the nonce, separated by single spaces.
pub open spec fn entry_line(name: Seq<char>, e: EntryView) -> Seq<u8> {
    hex_of(encode_utf8(name)) + seq![FIELD_SEP] + hex_of(e.password_ct) + seq![FIELD_SEP] + ser_opt(
        e.username_ct,
    ) + seq![FIELD_SEP] + hex_of(e.nonce)
}

/// The serialized entry lines, one terminated line per entry, in store
/// order.
pub open spec fn ser_entries(s: Seq<(Seq<char>, EntryView)>) -> Seq<u8>
    decreases s.len(),
{
    if s.len() == 0 {
        Seq::empty()
    } else {
        entry_line(s[0].0, s[0].1) + seq![LINE_SEP] + ser_entries(s.drop_first())
    }
}

/// The whole store image: the magic line, the verifier line, the salt
/// line, then the entry lines.
pub open spec fn ser_store(v: StoreView) -> Seq<u8> {
    magic() + seq![LINE_SEP] + ser_opt(v.master) + seq![LINE_SEP] + ser_opt(v.master_salt) + seq![
        LINE_SEP,
    ] + ser_entries(v.entries)
}

/// Reads an optional-field token back: a lone hyphen is the absent field,
/// anything else must be hex.
pub open spec fn parse_opt(tok: Seq<u8>) -> Option<Option<Seq<u8>>> {
    if tok == seq![ABSENT] {
        Some(Option::None)
    } else {
        match parse_hex(tok) {
            None => None,
            Some(v) => Some(Option::Some(v)),
        }
    }
}

/// Reads the four tokens of an entry line back into a named entry: the
/// name bytes must be valid UTF-8 and the nonce must be 12 bytes.
pub open spec fn parse_entry_fields(t1: Seq<u8>, t2: Seq<u8>, t3: Seq<u8>, t4: Seq<u8>) -> Option<
    (Seq<char>, EntryView),
> {
    match (parse_hex(t1), parse_hex(t2), parse_opt(t3), parse_hex(t4)) {
        (Some(nb), Some(pct), Some(uct), Some(nonce)) => {
            if valid_utf8(nb) && nonce.len() == 12 {
                Some((decode_utf8(nb), EntryView { password_ct: pct, username_ct: uct, nonce }))
            } else {
                None
            }
        },
        _ => None,
    }
}

/// Splits an entry line on its three separators and reads the fields back.
pub open spec fn parse_entry_line(line: Seq<u8>) -> Option<(Seq<char>, EntryView)> {
    match find_byte(line, FIELD_SEP) {
        None => None,
        Some(i1) => {
            let t1 = line.subrange(0, i1);
            let r1 = line.subrange(i1 + 1, line.len() as int);
            match find_byte(r1, FIELD_SEP) {
                None => None,
                Some(i2) => {
                    let t2 = r1.subrange(0, i2);
                    let r2 = r1.subrange(i2 + 1, r1.len() as int);
                    match find_byte(r2, FIELD_SEP) {
                        None => None,
                        Some(i3) => {
                            let t3 = r2.subrange(0, i3);
                            let t4 = r2.subrange(i3 + 1, r2.len() as int);
                            if find_byte(t4, FIELD_SEP) is Some {
                                None
                            } else {
                                parse_entry_fields(t1, t2, t3, t4)
                            }
                        },
                    }
                },
            }
        },
    }
}

/// Reads the entry lines back, refusing a duplicate name.
pub open spec fn parse_entries(s: Seq<u8>) -> Option<Seq<(Seq<char>, EntryView)>>
    decreases s.len() via parse_entries_dec
{
    if s.len() == 0 {
        Some(Seq::empty())
    } else {
        match take_line(s) {
            None => None,
            Some((line, rest)) => match parse_entry_line(line) {
                None => None,
                Some(p) => match parse_entries(rest) {
                    None => None,
                    Some(tail) => if has_name(tail, p.0) {
                        None
                    } else {
                        Some(seq![p] + tail)
                    },
                },
            },
        }
    }
}

#[via_fn]
proof fn parse_entries_dec(s: Seq<u8>) {
    lemma_find_byte(s, LINE_SEP);
}

/// Reads a whole store image back; `None` on any malformed content,
/// including a verifier without its salt or a salt without its verifier.
pub open spec fn parse_store(s: Seq<u8>) -> Option<StoreView> {
    match take_line(s) {
        None => None,
        Some((l0, r0)) => if l0 != magic() {
            None
        } else {
            match take_line(r0) {
                None => None,
                Some((l1, r1)) => match parse_opt(l1) {
                    None => None,
                    Some(master) => match take_line(r1) {
                        None => None,
                        Some((l2, r2)) => match parse_opt(l2) {
                            None => None,
                            Some(master_salt) => if (master is Some) != (master_salt is Some) {
                                None
                            } else {
                                match parse_entries(r2) {
                                    None => None,
                                    Some(entries) => Some(
                                        StoreView { master, master_salt, entries },
                                    ),
                                }
                            },
                        },
                    },
                },
            }
        },
    }
}

/// Hex digits and the hyphen are neither separators nor line breaks.
pub proof fn lemma_ser_opt_clean(o: Option<Seq<u8>>)
    ensures
        forall|j: int|
            0 <= j < ser_opt(o).len() ==> (#[trigger] ser_opt(o)[j]) != LINE_SEP && ser_opt(o)[j]
                != FIELD_SEP,
{
    match o {
        Option::None => {
        },
        Option::Some(v) => {
            lemma_hex_of_digits(v);
        },
    }
}

/// Reading an optional-field token back yields the field.
pub proof fn lemma_parse_opt_roundtrip(o: Option<Seq<u8>>)
    ensures
        parse_opt(ser_opt(o)) == Some(o),
{
    match o {
        Option::None => {
        },
        Option::Some(v) => {
            lemma_hex_of_len(v);
            assert(hex_of(v).len() != 1);
            assert(hex_of(v) != seq![ABSENT]);
            lemma_parse_hex_of(v);
        },
    }
}

/// An entry line body holds no line break.
pub proof fn lemma_entry_line_clean(name: Seq<char>, e: EntryView)
    ensures
        forall|j: int|
            0 <= j < entry_line(name, e).len() ==> (#[trigger] entry_line(name, e)[j]) != LINE_SEP,
{
    lemma_hex_of_digits(encode_utf8(name));
    lemma_hex_of_digits(e.password_ct);
    lemma_ser_opt_clean(e.username_ct);
    lemma_hex_of_digits(e.nonce);
}

/// Reading an entry line back yields the named entry.
pub proof fn lemma_parse_entry_line_roundtrip(name: Seq<char>, e: EntryView)
    requires
        e.nonce.len() == 12,
    ensures
        parse_entry_line(entry_line(name, e)) == Some((name, e)),
{
    let t1 = hex_of(encode_utf8(name));
    let t2 = hex_of(e.password_ct);
    let t3 = ser_opt(e.username_ct);
    let t4 = hex_of(e.nonce);
    let line = entry_line(name, e);
    let r1 = t2 + seq![FIELD_SEP] + t3 + seq![FIELD_SEP] + t4;
    let r2 = t3 + seq![FIELD_SEP] + t4;
    lemma_hex_of_digits(encode_utf8(name));
    lemma_hex_of_digits(e.password_ct);
    lemma_ser_opt_clean(e.username_ct);
    lemma_hex_of_digits(e.nonce);
    assert(line =~= t1 + seq![FIELD_SEP] + r1);
    lemma_find_byte_concat(t1, FIELD_SEP, r1);
    assert(find_byte(line, FIELD_SEP) == Some(t1.len() as int));
    assert(line.subrange(0, t1.len() as int) =~= t1);
    assert(line.subrange(t1.len() as int + 1, line.len() as int) =~= r1);
    assert(r1 =~= t2 + seq![FIELD_SEP] + r2);
    lemma_find_byte_concat(t2, FIELD_SEP, r2);
    assert(find_byte(r1, FIELD_SEP) == Some(t2.len() as int));
    assert(r1.subrange(0, t2.len() as int) =~= t2);
    assert(r1.subrange(t2.len() as int + 1, r1.len() as int) =~= r2);
    lemma_find_byte_concat(t3, FIELD_SEP, t4);
    assert(find_byte(r2, FIELD_SEP) == Some(t3.len() as int));
    assert(r2.subrange(0, t3.len() as int) =~= t3);
    assert(r2.subrange(t3.len() as int + 1, r2.len() as int) =~= t4);
    lemma_find_byte(t4, FIELD_SEP);
    assert(find_byte(t4, FIELD_SEP) is None);
    lemma_parse_hex_of(encode_utf8(name));
    lemma_parse_hex_of(e.password_ct);
    lemma_parse_opt_roundtrip(e.username_ct);
    lemma_parse_hex_of(e.nonce);
    vstd::utf8::encode_utf8_valid_utf8(name);
    vstd::utf8::encode_utf8_decode_utf8(name);
    assert(parse_entry_fields(t1, t2, t3, t4) matches Some(p) && p.0 == name && p.1 =~= e);
}

/// Reading the serialized entry lines back yields the entries.
pub proof fn lemma_parse_entries_roundtrip(s: Seq<(Seq<char>, EntryView)>)
    requires
        forall|i: int, j: int|
            #![trigger s[i], s[j]]
            0 <= i < j < s.len() ==> s[i].0 != s[j].0,
        forall|i: int| 0 <= i < s.len() ==> (#[trigger] s[i]).1.nonce.len() == 12,
    ensures
        parse_entries(ser_entries(s)) == Some(s),
    decreases s.len(),
{
    if s.len() == 0 {
        assert(ser_entries(s).len() == 0);
        assert(Some(Seq::<(Seq<char>, EntryView)>::empty()) == Some(s)) by {
            assert(Seq::<(Seq<char>, EntryView)>::empty() =~= s);
        }
    } else {
        let p = s[0];
        let body = entry_line(p.0, p.1);
        let rest = ser_entries(s.drop_first());
        let whole = ser_entries(s);
        assert(whole =~= body + seq![LINE_SEP] + rest);
        lemma_entry_line_clean(p.0, p.1);
        lemma_take_line_concat(body, rest);
        assert(take_line(whole) == Some((body, rest)));
        assert(whole.len() > 0);
        lemma_parse_entry_line_roundtrip(p.0, p.1);
        assert(forall|x: int|
            0 <= x < s.drop_first().len() ==> s.drop_first()[x] == s[x + 1]);
        lemma_parse_entries_roundtrip(s.drop_first());
        assert(!has_name(s.drop_first(), p.0)) by {
            assert(forall|x: int| 0 <= x < s.drop_first().len() ==> s.drop_first()[x].0 != p.0);
        }
        assert(seq![p] + s.drop_first() =~= s);
    }
}

/// Reading a serialized well-formed store back yields the store: the
/// persistence round trip.
pub proof fn lemma_parse_store_roundtrip(v: StoreView)
    requires
        v.wf(),
    ensures
        parse_store(ser_store(v)) == Some(v),
{
    let m = magic();
    let t1 = ser_opt(v.master);
    let t2 = ser_opt(v.master_salt);
    let es = ser_entries(v.entries);
    let whole = ser_store(v);
    let r0 = t1 + seq![LINE_SEP] + t2 + seq![LINE_SEP] + es;
    let r1 = t2 + seq![LINE_SEP] + es;
    assert(forall|j: int| 0 <= j < m.len() ==> (#[trigger] m[j]) != LINE_SEP);
    assert(whole =~= m + seq![LINE_SEP] + r0);
    lemma_take_line_concat(m, r0);
    assert(take_line(whole) == Some((m, r0)));
    lemma_ser_opt_clean(v.master);
    lemma_ser_opt_clean(v.master_salt);
    assert(r0 =~= t1 + seq![LINE_SEP] + r1);
    lemma_take_line_concat(t1, r1);
    assert(take_line(r0) == Some((t1, r1)));
    lemma_take_line_concat(t2, es);
    assert(take_line(r1) == Some((t2, es)));
    lemma_parse_opt_roundtrip(v.master);
    lemma_parse_opt_roundtrip(v.master_salt);
    lemma_parse_entries_roundtrip(v.entries);
    assert(parse_store(whole) matches Some(w) && w =~= v);
}

/// Appends a byte string.
fn push_all(out: &mut Vec<u8>, v: &[u8])
    ensures
        final(out)@ == old(out)@ + v@,
{
    let mut i: usize = 0;
    while i < v.len()
        invariant
            0 <= i <= v@.len(),
            out@ == old(out)@ + v@.subrange(0, i as int),
        decreases v@.len() - i,
    {
        out.push(v[i]);
        i = i + 1;
        proof {
            assert(out@ =~= old(out)@ + v@.subrange(0, i as int));
        }
    }
    proof {
        assert(old(out)@ + v@.subrange(0, v@.len() as int) =~= old(out)@ + v@);
    }
}

/// Appends the hex form of a byte string.
fn push_hex(out: &mut Vec<u8>, v: &[u8])
    ensures
        final(out)@ == old(out)@ + hex_of(v@),
{
    let h = hex_encode(v);
    push_all(out, h.as_slice());
}

/// Appends the token of an optional byte field.
fn push_opt(out: &mut Vec<u8>, o: &Option<Vec<u8>>)
    ensures
        final(out)@ == old(out)@ + ser_opt(opt_bytes_view(*o)),
{
    match o {
        None => {
            out.push(ABSENT);
            proof {
                assert(out@ =~= old(out)@ + seq![ABSENT]);
            }
        },
        Some(v) => {
            push_hex(out, v.as_slice());
        },
    }
}

/// Appending one entry appends its terminated line.
pub proof fn lemma_ser_entries_snoc(s: Seq<(Seq<char>, EntryView)>, p: (Seq<char>, EntryView))
    ensures
        ser_entries(s.push(p)) == ser_entries(s) + entry_line(p.0, p.1) + seq![LINE_SEP],
    decreases s.len(),
{
    if s.len() == 0 {
        assert(s.push(p)[0] == p);
        assert(s.push(p).drop_first() =~= s);
        assert(ser_entries(s.push(p)) =~= ser_entries(s) + entry_line(p.0, p.1) + seq![LINE_SEP]);
    } else {
        assert(s.push(p)[0] == s[0]);
        assert(s.push(p).drop_first() =~= s.drop_first().push(p));
        lemma_ser_entries_snoc(s.drop_first(), p);
        assert(ser_entries(s.push(p)) =~= ser_entries(s) + entry_line(p.0, p.1) + seq![LINE_SEP]);
    }
}

/// Serializes the store to the bytes of its image, exactly as
/// [`ser_store`] describes them.
pub fn persist_bytes(store: &Store) -> (r: Vec<u8>)
    ensures
        r@ == ser_store(store@),
{
    let mut out: Vec<u8> = Vec::new();
    out.push(0x70);
    out.push(0x76);
    out.push(0x31);
    out.push(LINE_SEP);
    proof {
        assert(out@ =~= magic() + seq![LINE_SEP]);
    }
    push_opt(&mut out, &store.master);
    out.push(LINE_SEP);
    push_opt(&mut out, &store.master_salt);
    out.push(LINE_SEP);
    let ghost header = magic() + seq![LINE_SEP] + ser_opt(store@.master) + seq![LINE_SEP] + ser_opt(
        store@.master_salt,
    ) + seq![LINE_SEP];
    proof {
        assert(out@ =~= header);
    }
    let mut t: usize = 0;
    while t < store.entries.len()
        invariant
            0 <= t <= store.entries@.len(),
            out@ == header + ser_entries(entries_view(store.entries@).subrange(0, t as int)),
        decreases store.entries@.len() - t,
    {
        let ghost ev = entries_view(store.entries@);
        let ghost before = out@;
        let pair = &store.entries[t];
        push_hex(&mut out, pair.0.as_str().as_bytes());
        out.push(FIELD_SEP);
        push_hex(&mut out, pair.1.password_ct.as_slice());
        out.push(FIELD_SEP);
        match &pair.1.username_ct {
            None => {
                out.push(ABSENT);
            },
            Some(u) => {
                push_hex(&mut out, u.as_slice());
            },
        }
        out.push(FIELD_SEP);
        push_hex(&mut out, pair.1.nonce.as_slice());
        out.push(LINE_SEP);
        proof {
            assert(out@ =~= before + entry_line(ev[t as int].0, ev[t as int].1) + seq![LINE_SEP]);
            lemma_ser_entries_snoc(ev.subrange(0, t as int), ev[t as int]);
            assert(ev.subrange(0, t as int).push(ev[t as int]) =~= ev.subrange(0, t as int + 1));
            assert(out@ =~= header + ser_entries(ev.subrange(0, t as int + 1)));
        }
        t = t + 1;
    }
    proof {
        assert(entries_view(store.entries@).subrange(0, store.entries@.len() as int)
            =~= entries_view(store.entries@));
        assert(out@ =~= ser_store(store@));
    }
    out
}

/// Finds the first occurrence of a byte in a slice.
fn find_byte_exec(s: &[u8], c: u8) -> (r: Option<usize>)
    ensures
        (match r {
            Some(i) => find_byte(s@, c) == Some(i as int),
            None => find_byte(s@, c) is None,
        }),
{
    let mut i: usize = 0;
    while i < s.len()
        invariant
            0 <= i <= s@.len(),
            forall|j: int| 0 <= j < i ==> s@[j] != c,
        decreases s@.len() - i,
    {
        if s[i] == c {
            proof {
                lemma_find_byte(s@, c);
            }
            return Some(i);
        }
        i = i + 1;
    }
    proof {
        lemma_find_byte(s@, c);
    }
    None
}

/// Copies out a subrange of a slice.
fn subvec(s: &[u8], start: usize, end: usize) -> (r: Vec<u8>)
    requires
        start <= end <= s@.len(),
    ensures
        r@ == s@.subrange(start as int, end as int),
{
    let mut out: Vec<u8> = Vec::new();
    let mut i: usize = start;
    while i < end
        invariant
            start <= i <= end <= s@.len(),
            out@ == s@.subrange(start as int, i as int),
        decreases end - i,
    {
        out.push(s[i]);
        i = i + 1;
        proof {
            assert(out@ =~= s@.subrange(start as int, i as int));
        }
    }
    out
}

/// Splits off the first line, exactly as [`take_line`] describes.
fn take_line_exec(s: &[u8]) -> (r: Option<(Vec<u8>, Vec<u8>)>)
    ensures
        (match r {
            Some(p) => take_line(s@) == Some((p.0@, p.1@)),
            None => take_line(s@) is None,
        }),
{
    match find_byte_exec(s, LINE_SEP) {
        None => None,
        Some(i) => {
            proof {
                lemma_find_byte(s@, LINE_SEP);
                assert(i < s@.len());
            }
            let n = s.len();
            let line = subvec(s, 0, i);
            let rest = subvec(s, i + 1, n);
            Some((line, rest))
        },
    }
}

/// The value of one hex digit, or `None` for any other byte.
fn hex_digit_val(b: u8) -> (r: Option<u8>)
    ensures
        (match r {
            Some(v) => is_hex_digit(b) && v == hex_val(b),
            None => !is_hex_digit(b),
        }),
{
    if 0x30 <= b && b <= 0x39 {
        Some(b - 0x30)
    } else if 0x61 <= b && b <= 0x66 {
        Some(b - 0x61 + 10)
    } else {
        None
    }
}

/// Decodes a hex token, exactly as [`parse_hex`] describes.
fn hex_decode(s: &[u8]) -> (r: Option<Vec<u8>>)
    ensures
        (match r {
            Some(v) => parse_hex(s@) == Some(v@),
            None => parse_hex(s@) is None,
        }),
{
    let mut out: Vec<u8> = Vec::new();
    let mut k: usize = 0;
    proof {
        assert(s@.subrange(0, s@.len() as int) =~= s@);
        match parse_hex(s@) {
            None => {
            },
            Some(t) => {
                assert(Seq::<u8>::empty() + t =~= t);
            },
        }
    }
    while k < s.len() && s.len() - k >= 2
        invariant
            0 <= k <= s@.len(),
            (match parse_hex(s@.subrange(k as int, s@.len() as int)) {
                None => parse_hex(s@) is None,
                Some(t) => parse_hex(s@) == Some(out@ + t),
            }),
        decreases s@.len() - k,
    {
        let ghost suffix = s@.subrange(k as int, s@.len() as int);
        let a = s[k];
        let b = s[k + 1];
        proof {
            assert(suffix.len() >= 2);
            assert(suffix[0] == a);
            assert(suffix[1] == b);
        }
        let va = match hex_digit_val(a) {
            None => {
                return None;
            },
            Some(v) => v,
        };
        let vb = match hex_digit_val(b) {
            None => {
                return None;
            },
            Some(v) => v,
        };
        proof {
            assert(va < 16 && vb < 16);
        }
        let byte = va * 16 + vb;
        let ghost before = out@;
        out.push(byte);
        k = k + 2;
        proof {
            assert(suffix.subrange(2, suffix.len() as int) =~= s@.subrange(
                k as int,
                s@.len() as int,
            ));
            assert(out@ =~= before + seq![byte]);
            match parse_hex(s@.subrange(k as int, s@.len() as int)) {
                None => {
                },
                Some(t2) => {
                    assert(parse_hex(suffix) == Some(seq![byte] + t2));
                    assert(before + (seq![byte] + t2) =~= out@ + t2);
                },
            }
        }
    }
    if k == s.len() {
        proof {
            assert(s@.subrange(k as int, s@.len() as int).len() == 0);
            assert(out@ + Seq::<u8>::empty() =~= out@);
        }
        Some(out)
    } else {
        proof {
            assert(s@.subrange(k as int, s@.len() as int).len() == 1);
        }
        None
    }
}

/// Reads an optional-field token, exactly as [`parse_opt`] describes.
fn parse_opt_exec(tok: &[u8]) -> (r: Option<Option<Vec<u8>>>)
    ensures
        (match r {
            Some(o) => parse_opt(tok@) == Some(opt_bytes_view(o)),
            None => parse_opt(tok@) is None,
        }),
{
    if tok.len() == 1 && tok[0] == ABSENT {
        proof {
            assert(tok@ =~= seq![ABSENT]);
        }
        Some(None)
    } else {
        proof {
            assert(tok@ != seq![ABSENT]) by {
                if tok@ == seq![ABSENT] {
                    assert(tok@.len() == 1);
                    assert(tok@[0] == ABSENT);
                }
            }
        }
        match hex_decode(tok) {
            None => None,
            Some(v) => Some(Some(v)),
        }
    }
}

/// Reads an entry line, exactly as [`parse_entry_line`] describes.
fn parse_entry_line_exec(line: &[u8]) -> (r: Option<(String, Entry)>)
    ensures
        (match r {
            Some(p) => parse_entry_line(line@) == Some((p.0@, p.1@)),
            None => parse_entry_line(line@) is None,
        }),
{
    let i1 = match find_byte_exec(line, FIELD_SEP) {
        None => {
            return None;
        },
        Some(i) => i,
    };
    proof {
        lemma_find_byte(line@, FIELD_SEP);
        assert(i1 < line@.len());
    }
    let n = line.len();
    let t1 = subvec(line, 0, i1);
    let r1 = subvec(line, i1 + 1, n);
    let i2 = match find_byte_exec(r1.as_slice(), FIELD_SEP) {
        None => {
            return None;
        },
        Some(i) => i,
    };
    proof {
        lemma_find_byte(r1@, FIELD_SEP);
        assert(i2 < r1@.len());
    }
    let n1 = r1.len();
    let t2 = subvec(r1.as_slice(), 0, i2);
    let r2 = subvec(r1.as_slice(), i2 + 1, n1);
    let i3 = match find_byte_exec(r2.as_slice(), FIELD_SEP) {
        None => {
            return None;
        },
        Some(i) => i,
    };
    proof {
        lemma_find_byte(r2@, FIELD_SEP);
        assert(i3 < r2@.len());
    }
    let n2 = r2.len();
    let t3 = subvec(r2.as_slice(), 0, i3);
    let t4 = subvec(r2.as_slice(), i3 + 1, n2);
    match find_byte_exec(t4.as_slice(), FIELD_SEP) {
        Some(_) => {
            return None;
        },
        None => {
        },
    }
    let nb = match hex_decode(t1.as_slice()) {
        None => {
            return None;
        },
        Some(v) => v,
    };
    let pct = match hex_decode(t2.as_slice()) {
        None => {
            return None;
        },
        Some(v) => v,
    };
    let uct = match parse_opt_exec(t3.as_slice()) {
        None => {
            return None;
        },
        Some(o) => o,
    };
    let nonce = match hex_decode(t4.as_slice()) {
        None => {
            return None;
        },
        Some(v) => v,
    };
    if nonce.len() != 12 {
        return None;
    }
    let name = match bytes_to_string(nb) {
        None => {
            return None;
        },
        Some(s) => s,
    };
    Some((name, Entry { password_ct: pct, username_ct: uct, nonce }))
}

/// True when some held entry already carries this name.
fn contains_name(entries: &Vec<(String, Entry)>, name: &str) -> (r: bool)
    ensures
        r == has_name(entries_view(entries@), name@),
{
    let mut i: usize = 0;
    while i < entries.len()
        invariant
            0 <= i <= entries@.len(),
            forall|j: int| 0 <= j < i ==> entries_view(entries@)[j].0 != name@,
        decreases entries@.len() - i,
    {
        if str_eq(entries[i].0.as_str(), name) {
            proof {
                assert(entries_view(entries@)[i as int].0 == name@);
            }
            return true;
        }
        i = i + 1;
    }
    proof {
        assert(!has_name(entries_view(entries@), name@)) by {
            assert(forall|j: int|
                0 <= j < entries_view(entries@).len() ==> entries_view(entries@)[j].0 != name@);
        }
    }
    false
}

/// Reads the entry lines, exactly as [`parse_entries`] describes.
fn parse_entries_exec(s: &[u8]) -> (r: Option<Vec<(String, Entry)>>)
    ensures
        (match r {
            Some(v) => parse_entries(s@) == Some(entries_view(v@)),
            None => parse_entries(s@) is None,
        }),
    decreases s@.len(),
{
    if s.len() == 0 {
        proof {
            assert(entries_view(Seq::<(String, Entry)>::empty())
                =~= Seq::<(Seq<char>, EntryView)>::empty());
        }
        return Some(Vec::new());
    }
    let (line, rest) = match take_line_exec(s) {
        None => {
            return None;
        },
        Some(p) => p,
    };
    let p = match parse_entry_line_exec(line.as_slice()) {
        None => {
            return None;
        },
        Some(p) => p,
    };
    proof {
        lemma_find_byte(s@, LINE_SEP);
    }
    let tail = match parse_entries_exec(rest.as_slice()) {
        None => {
            return None;
        },
        Some(t) => t,
    };
    if contains_name(&tail, p.0.as_str()) {
        return None;
    }
    let ghost pv = (p.0@, p.1@);
    let ghost tv = entries_view(tail@);
    let mut out = tail;
    out.insert(0, p);
    proof {
        assert(entries_view(out@) =~= seq![pv] + tv);
    }
    Some(out)
}

/// Every store a parse yields is well formed: names unique, nonces 96
/// bits.
pub proof fn lemma_parse_entries_wf(s: Seq<u8>)
    ensures
        parse_entries(s) matches Some(es) ==> (forall|i: int, j: int|
            #![trigger es[i], es[j]]
            0 <= i < j < es.len() ==> es[i].0 != es[j].0) && (forall|i: int|
            0 <= i < es.len() ==> (#[trigger] es[i]).1.nonce.len() == 12),
    decreases s.len(),
{
    if s.len() > 0 && parse_entries(s) is Some {
        let (line, rest) = take_line(s).unwrap();
        lemma_find_byte(s, LINE_SEP);
        lemma_parse_entries_wf(rest);
        let p = parse_entry_line(line).unwrap();
        let tail = parse_entries(rest).unwrap();
        let es = parse_entries(s).unwrap();
        assert(es == seq![p] + tail);
        assert(forall|x: int| 0 <= x < tail.len() ==> es[x + 1] == tail[x]);
        assert(es[0] == p);
        assert(p.1.nonce.len() == 12);
        assert forall|x: int| 0 <= x < tail.len() implies tail[x].0 != p.0 by {
            if tail[x].0 == p.0 {
                assert(has_name(tail, p.0));
            }
        }
    }
}

/// Deserializes a store image; fails with `VaultError::Format` exactly on
/// content the format does not describe.  A loaded store is well formed.
pub fn load_bytes(bytes: &[u8]) -> (r: Result<Store, VaultError>)
    ensures
        (match parse_store(bytes@) {
            Some(v) => r matches Ok(st) && st@ == v,
            None => r matches Err(e) && e == VaultError::Format,
        }),
        r matches Ok(st) ==> st@.wf(),
{
    let (l0, r0) = match take_line_exec(bytes) {
        None => {
            return Err(VaultError::Format);
        },
        Some(p) => p,
    };
    if !(l0.len() == 3 && l0[0] == 0x70 && l0[1] == 0x76 && l0[2] == 0x31) {
        proof {
            assert(l0@ != magic()) by {
                if l0@ == magic() {
                    assert(l0@.len() == 3);
                    assert(l0@[0] == 0x70 && l0@[1] == 0x76 && l0@[2] == 0x31);
                }
            }
        }
        return Err(VaultError::Format);
    }
    proof {
        assert(l0@ =~= magic());
    }
    let (l1, r1) = match take_line_exec(r0.as_slice()) {
        None => {
            return Err(VaultError::Format);
        },
        Some(p) => p,
    };
    let master = match parse_opt_exec(l1.as_slice()) {
        None => {
            return Err(VaultError::Format);
        },
        Some(o) => o,
    };
    let (l2, r2) = match take_line_exec(r1.as_slice()) {
        None => {
            return Err(VaultError::Format);
        },
        Some(p) => p,
    };
    let master_salt = match parse_opt_exec(l2.as_slice()) {
        None => {
            return Err(VaultError::Format);
        },
        Some(o) => o,
    };
    if master.is_some() != master_salt.is_some() {
        return Err(VaultError::Format);
    }
    let entries = match parse_entries_exec(r2.as_slice()) {
        None => {
            return Err(VaultError::Format);
        },
        Some(v) => v,
    };
    let st = Store { master, master_salt, entries };
    proof {
        lemma_parse_entries_wf(r2@);
        assert(parse_store(bytes@) matches Some(v) && st@ =~= v);
        assert(st@.wf());
    }
    Ok(st)
}

} // verus!
