use vstd::prelude::*;
use crate::record::{RecordV, entry_v_wf, spec_id_char, spec_key_char, spec_id_ok, spec_key_ok};
use crate::codec::{
    lit_head, lit_mid1, lit_mid2, lit_entry_pre, lit_entry_mid, lit_data_close, lit_tail,
    digit_char, dec_digits, dec_int, entry_enc, entries_enc, data_enc, spec_encode,
};

verus! {

// ---------------------------------------------------------------------------
// The decoding specification: a parser for the canonical durable text.
//
// `spec_decode` accepts a text exactly when it is the canonical encoding of a
// well-formed record, and then yields that record. Decode failure is the
// model of corruption: a text that is no encoding decodes to nothing.
// ---------------------------------------------------------------------------

pub open spec fn is_digit(c: char) -> bool {
    48 <= c as u32 <= 57
}

pub open spec fn digit_val(c: char) -> nat {
    (c as u32 - 48) as nat
}

/// The position of the first `'"'` at or after `i`.
pub open spec fn sp_scan_quote(s: Seq<char>, i: int) -> Option<int>
    decreases s.len() - i,
    when 0 <= i <= s.len()
{
    if i >= s.len() {
        None
    } else if s[i] == '"' {
        Some(i)
    } else {
        sp_scan_quote(s, i + 1)
    }
}

/// The position of the first non-digit at or after `i` (or the end).
pub open spec fn sp_scan_digits(s: Seq<char>, i: int) -> int
    decreases s.len() - i,
    when 0 <= i <= s.len()
{
    if i >= s.len() {
        i
    } else if is_digit(s[i]) {
        sp_scan_digits(s, i + 1)
    } else {
        i
    }
}

/// The numeric value of a digit string, most significant digit first.
pub open spec fn sp_val(ds: Seq<char>) -> nat
    decreases ds.len(),
{
    if ds.len() == 0 {
        0
    } else {
        sp_val(ds.drop_last()) * 10 + digit_val(ds.last())
    }
}

/// Parses an optionally signed decimal integer at `p`: the value and the
/// position after its digits. Runs of more than 19 digits and values outside
/// the signed 64-bit range are rejected (no canonical encoding has either).
pub open spec fn sp_parse_int(s: Seq<char>, p: int) -> Option<(int, int)> {
    if !(0 <= p <= s.len()) {
        None
    } else if p < s.len() && s[p] == '-' {
        let e = sp_scan_digits(s, p + 1);
        let mag = sp_val(s.subrange(p + 1, e)) as int;
        if e == p + 1 || e - (p + 1) > 19 || mag > 9223372036854775808 {
            None
        } else {
            Some((-mag, e))
        }
    } else {
        let e = sp_scan_digits(s, p);
        let mag = sp_val(s.subrange(p, e)) as int;
        if e == p || e - p > 19 || mag > 9223372036854775807 {
            None
        } else {
            Some((mag, e))
        }
    }
}

/// Parses one or more data entries starting at `p`; `first` says whether a
/// separating comma is expected before the entry. Yields the entries and the
/// position after the last one.
pub open spec fn sp_entries(s: Seq<char>, p: int, first: bool, fuel: nat) -> Option<
    (Seq<(Seq<char>, int)>, int),
>
    decreases fuel,
{
    if fuel == 0 {
        None
    } else {
        let pre: Seq<char> = if first {
            lit_entry_pre()
        } else {
            seq![','] + lit_entry_pre()
        };
        if !sp_starts(s, p, pre) {
            None
        } else {
            let k0 = p + pre.len();
            match sp_scan_quote(s, k0) {
                Option::None => None,
                Option::Some(k1) => {
                    let key = s.subrange(k0, k1);
                    if !(spec_key_ok(key) && sp_starts(s, k1, lit_entry_mid())) {
                        None
                    } else {
                        match sp_parse_int(s, k1 + lit_entry_mid().len()) {
                            Option::None => None,
                            Option::Some((v, p2)) => {
                                if 0 <= p2 < s.len() && s[p2] == ',' {
                                    match sp_entries(s, p2, false, (fuel - 1) as nat) {
                                        Option::None => None,
                                        Option::Some((rest, p3)) => Some(
                                            (seq![(key, v)] + rest, p3),
                                        ),
                                    }
                                } else {
                                    Some((seq![(key, v)], p2))
                                }
                            },
                        }
                    }
                },
            }
        }
    }
}

pub open spec fn sp_starts(s: Seq<char>, p: int, lit: Seq<char>) -> bool {
    0 <= p && p + lit.len() <= s.len() && s.subrange(p, p + lit.len()) == lit
}

pub open spec fn lit_empty_close() -> Seq<char> {
    "}\n}"@
}

pub open spec fn lit_full_close() -> Seq<char> {
    "\n  }\n}"@
}

/// Parses a whole durable text into a record model. The text must be
/// consumed completely.
pub open spec fn sp_parse(s: Seq<char>) -> Option<RecordV> {
    if !sp_starts(s, 0, lit_head()) {
        None
    } else {
        match sp_scan_quote(s, lit_head().len() as int) {
            Option::None => None,
            Option::Some(q) => {
                let id = s.subrange(lit_head().len() as int, q);
                if !(spec_id_ok(id) && sp_starts(s, q, lit_mid1())) {
                    None
                } else {
                    match sp_parse_int(s, q + lit_mid1().len()) {
                        Option::None => None,
                        Option::Some((exp, p1)) => {
                            if !sp_starts(s, p1, lit_mid2()) {
                                None
                            } else {
                                let p2 = p1 + lit_mid2().len();
                                if sp_starts(s, p2, lit_empty_close()) && p2
                                    + lit_empty_close().len() == s.len() {
                                    Some(RecordV { id, expiry: exp, data: Seq::empty() })
                                } else {
                                    match sp_entries(s, p2, true, s.len() as nat) {
                                        Option::None => None,
                                        Option::Some((data, p3)) => {
                                            if sp_starts(s, p3, lit_full_close()) && p3
                                                + lit_full_close().len() == s.len() {
                                                Some(RecordV { id, expiry: exp, data })
                                            } else {
                                                None
                                            }
                                        },
                                    }
                                }
                            }
                        },
                    }
                }
            },
        }
    }
}

/// A text decodes to a record exactly when it is that record's canonical
/// encoding and the record is well formed.
pub open spec fn spec_decode(s: Seq<char>) -> Option<RecordV> {
    match sp_parse(s) {
        Option::Some(v) => if v.wf() && spec_encode(v) == s {
            Some(v)
        } else {
            None
        },
        Option::None => None,
    }
}

// ---------------------------------------------------------------------------
// Facts about digits and decimal strings.
// ---------------------------------------------------------------------------

pub open spec fn pow10(k: nat) -> nat
    decreases k,
{
    if k == 0 {
        1
    } else {
        10 * pow10((k - 1) as nat)
    }
}

pub proof fn lemma_digit_char_val(d: nat)
    requires
        d < 10,
    ensures
        is_digit(digit_char(d)),
        digit_val(digit_char(d)) == d,
{
}

/// Every character of a decimal string is a digit.
pub proof fn lemma_dec_digits_digits(n: nat)
    ensures
        dec_digits(n).len() >= 1,
        forall|k: int| 0 <= k < dec_digits(n).len() ==> is_digit(#[trigger] dec_digits(n)[k]),
    decreases n,
{
    if n < 10 {
        lemma_digit_char_val(n);
    } else {
        lemma_dec_digits_digits(n / 10);
        lemma_digit_char_val(n % 10);
        assert forall|k: int| 0 <= k < dec_digits(n).len() implies is_digit(
            #[trigger] dec_digits(n)[k],
        ) by {
            if k < dec_digits(n / 10).len() {
                assert(dec_digits(n)[k] == dec_digits(n / 10)[k]);
            } else {
                assert(dec_digits(n)[k] == digit_char(n % 10));
            }
        }
    }
}

/// Reading the decimal string of `n` back yields `n`.
pub proof fn lemma_sp_val_dec_digits(n: nat)
    ensures
        sp_val(dec_digits(n)) == n,
    decreases n,
{
    if n < 10 {
        lemma_digit_char_val(n);
        assert(dec_digits(n) =~= seq![digit_char(n)]);
        assert(dec_digits(n).drop_last() =~= Seq::<char>::empty());
        assert(sp_val(Seq::<char>::empty()) == 0);
        assert(dec_digits(n).last() == digit_char(n));
        assert(sp_val(dec_digits(n)) == sp_val(dec_digits(n).drop_last()) * 10 + digit_val(
            dec_digits(n).last(),
        ));
    } else {
        lemma_sp_val_dec_digits(n / 10);
        lemma_digit_char_val(n % 10);
        assert(dec_digits(n).drop_last() =~= dec_digits(n / 10));
        assert(dec_digits(n).last() == digit_char(n % 10));
    }
}

/// A number below `10^k` has at most `k` decimal digits.
pub proof fn lemma_dec_digits_len(n: nat, k: nat)
    requires
        k >= 1,
        n < pow10(k),
    ensures
        dec_digits(n).len() <= k,
    decreases n,
{
    if n < 10 {
    } else {
        assert(pow10(k) == 10 * pow10((k - 1) as nat));
        assert(n / 10 < pow10((k - 1) as nat));
        assert(pow10((k - 1) as nat) > 1);
        lemma_dec_digits_len(n / 10, (k - 1) as nat);
    }
}

pub proof fn lemma_pow10_19()
    ensures
        pow10(19) == 10000000000000000000,
{
    reveal_with_fuel(pow10, 21);
}

/// The value of a digit string is below `10^len`.
pub proof fn lemma_sp_val_bound(ds: Seq<char>)
    requires
        forall|k: int| 0 <= k < ds.len() ==> is_digit(#[trigger] ds[k]),
    ensures
        sp_val(ds) < pow10(ds.len()),
    decreases ds.len(),
{
    if ds.len() == 0 {
    } else {
        assert(forall|k: int|
            0 <= k < ds.drop_last().len() ==> is_digit(#[trigger] ds.drop_last()[k]));
        lemma_sp_val_bound(ds.drop_last());
        assert(is_digit(ds.last()));
        assert(digit_val(ds.last()) <= 9);
    }
}

// ---------------------------------------------------------------------------
// The scanners find what the encoding placed.
// ---------------------------------------------------------------------------

pub proof fn lemma_scan_quote_finds(s: Seq<char>, i: int, j: int)
    requires
        0 <= i <= j < s.len(),
        s[j] == '"',
        forall|k: int| i <= k < j ==> s[k] != '"',
    ensures
        sp_scan_quote(s, i) == Some(j),
    decreases j - i,
{
    if i == j {
    } else {
        lemma_scan_quote_finds(s, i + 1, j);
    }
}

pub proof fn lemma_scan_digits_stops(s: Seq<char>, i: int, j: int)
    requires
        0 <= i <= j <= s.len(),
        forall|k: int| i <= k < j ==> is_digit(s[k]),
        j == s.len() || !is_digit(s[j]),
    ensures
        sp_scan_digits(s, i) == j,
    decreases j - i,
{
    if i == j {
    } else {
        lemma_scan_digits_stops(s, i + 1, j);
    }
}

// ---------------------------------------------------------------------------
// Completeness: the parser recovers every well-formed record from its
// canonical encoding. Injectivity of the encoding follows.
// ---------------------------------------------------------------------------

/// The lengths and decision characters of the fixed pieces of the format.
pub proof fn lemma_lits()
    ensures
        lit_head().len() == 11,
        lit_mid1().len() == 15,
        lit_mid1()[0] == '"',
        lit_mid2().len() == 13,
        lit_mid2()[0] == ',',
        lit_entry_pre().len() == 6,
        lit_entry_pre()[0] == '\n',
        lit_entry_mid().len() == 3,
        lit_entry_mid()[0] == '"',
        lit_data_close().len() == 4,
        lit_data_close()[0] == '\n',
        lit_tail().len() == 2,
        lit_tail()[0] == '\n',
        lit_empty_close().len() == 3,
        lit_empty_close() == seq!['}'] + lit_tail(),
        lit_full_close().len() == 6,
        lit_full_close() == lit_data_close() + lit_tail(),
{
    reveal_strlit("{\n  \"id\": \"");
    reveal_strlit("\",\n  \"expiry\": ");
    reveal_strlit(",\n  \"data\": {");
    reveal_strlit("\n    \"");
    reveal_strlit("\": ");
    reveal_strlit("\n  }");
    reveal_strlit("\n}");
    reveal_strlit("}\n}");
    reveal_strlit("\n  }\n}");
    assert(lit_empty_close() =~= seq!['}'] + lit_tail());
    assert(lit_full_close() =~= lit_data_close() + lit_tail());
}

pub proof fn lemma_subrange_index(s: Seq<char>, p: int, w: Seq<char>)
    requires
        0 <= p,
        p + w.len() <= s.len(),
        s.subrange(p, p + w.len()) == w,
    ensures
        forall|t: int| 0 <= t < w.len() ==> s[p + t] == w[t],
{
    assert forall|t: int| 0 <= t < w.len() implies s[p + t] == w[t] by {
        assert(w[t] == s.subrange(p, p + w.len())[t]);
    }
}

pub proof fn lemma_starts_from_index(s: Seq<char>, p: int, w: Seq<char>)
    requires
        0 <= p,
        p + w.len() <= s.len(),
        forall|t: int| 0 <= t < w.len() ==> s[p + t] == w[t],
    ensures
        sp_starts(s, p, w),
{
    assert(s.subrange(p, p + w.len()) =~= w);
}

/// The integer parser recovers a decimal rendering followed by a non-digit.
pub proof fn lemma_sp_parse_int_complete(s: Seq<char>, p: int, v: int)
    requires
        i64::MIN <= v <= i64::MAX,
        0 <= p,
        p + dec_int(v).len() < s.len(),
        s.subrange(p, p + dec_int(v).len()) == dec_int(v),
        !is_digit(s[p + dec_int(v).len()]),
    ensures
        sp_parse_int(s, p) == Some((v, p + dec_int(v).len())),
{
    let w = dec_int(v);
    let e = p + w.len();
    lemma_subrange_index(s, p, w);
    lemma_pow10_19();
    if v < 0 {
        let mag = (-v) as nat;
        let dd = dec_digits(mag);
        lemma_dec_digits_digits(mag);
        lemma_sp_val_dec_digits(mag);
        lemma_dec_digits_len(mag, 19);
        assert(w == seq!['-'] + dd);
        assert(s[p] == w[0]);
        assert(w[0] == '-');
        assert forall|k: int| p + 1 <= k < e implies is_digit(s[k]) by {
            assert(s[k] == w[k - p]);
            assert(w[k - p] == dd[k - p - 1]);
        }
        lemma_scan_digits_stops(s, p + 1, e);
        assert forall|t: int| 0 <= t < dd.len() implies s.subrange(p + 1, e)[t] == dd[t] by {
            assert(s[p + (t + 1)] == w[t + 1]);
        }
        assert(s.subrange(p + 1, e) =~= dd);
        assert(sp_val(s.subrange(p + 1, e)) == mag);
        assert(dd.len() <= 19);
    } else {
        let mag = v as nat;
        let dd = dec_digits(mag);
        lemma_dec_digits_digits(mag);
        lemma_sp_val_dec_digits(mag);
        lemma_dec_digits_len(mag, 19);
        assert(w == dd);
        assert(s[p] == w[0]);
        assert(is_digit(w[0]));
        assert(s[p] != '-');
        assert forall|k: int| p <= k < e implies is_digit(s[k]) by {
            assert(s[k] == w[k - p]);
        }
        lemma_scan_digits_stops(s, p, e);
        assert(s.subrange(p, e) =~= dd);
        assert(sp_val(s.subrange(p, e)) == mag);
        assert(dd.len() <= 19);
    }
}

/// An entry list's encoding is at least as long as the list.
pub proof fn lemma_entries_enc_len(es: Seq<(Seq<char>, int)>, first: bool)
    ensures
        entries_enc(es, first).len() >= es.len(),
    decreases es.len(),
{
    if es.len() == 0 {
    } else {
        lemma_entries_enc_len(es.drop_first(), false);
        lemma_dec_digits_digits_any(es[0].1);
    }
}

pub proof fn lemma_dec_digits_digits_any(v: int)
    ensures
        dec_int(v).len() >= 1,
{
    if v < 0 {
        lemma_dec_digits_digits((-v) as nat);
    } else {
        lemma_dec_digits_digits(v as nat);
    }
}

/// The entry parser recovers every well-formed entry list from its encoding,
/// given the closing newline that follows the last entry.
pub proof fn lemma_sp_entries_complete(
    s: Seq<char>,
    es: Seq<(Seq<char>, int)>,
    p: int,
    first: bool,
    fuel: nat,
)
    requires
        es.len() >= 1,
        forall|i: int| 0 <= i < es.len() ==> entry_v_wf(#[trigger] es[i]),
        0 <= p,
        p + entries_enc(es, first).len() < s.len(),
        s.subrange(p, p + entries_enc(es, first).len()) == entries_enc(es, first),
        s[p + entries_enc(es, first).len()] == '\n',
        fuel >= es.len(),
    ensures
        sp_entries(s, p, first, fuel) == Some((es, p + entries_enc(es, first).len())),
    decreases es.len(),
{
    lemma_lits();
    let e0 = es[0];
    let enc = entries_enc(es, first);
    let enc0 = entry_enc(e0, first);
    let rest = es.drop_first();
    let encr = entries_enc(rest, false);
    assert(enc == enc0 + encr);
    let pre: Seq<char> = if first {
        lit_entry_pre()
    } else {
        seq![','] + lit_entry_pre()
    };
    assert(enc0 =~= pre + e0.0 + lit_entry_mid() + dec_int(e0.1));
    lemma_subrange_index(s, p, enc);
    assert(forall|t: int| 0 <= t < enc0.len() ==> enc[t] == enc0[t]);
    let k0 = p + pre.len();
    let k1 = k0 + e0.0.len();
    let pm = k1 + lit_entry_mid().len();
    let p2 = pm + dec_int(e0.1).len();
    assert(p2 == p + enc0.len());
    // the fixed text before the key
    assert forall|t: int| 0 <= t < pre.len() implies s[p + t] == pre[t] by {
        assert(enc0[t] == pre[t]);
    }
    lemma_starts_from_index(s, p, pre);
    // the key, closed by the quote that starts `lit_entry_mid`
    assert(entry_v_wf(e0));
    assert forall|k: int| k0 <= k < k1 implies s[k] != '"' by {
        assert(s[k] == enc0[k - p]);
        assert(enc0[k - p] == e0.0[k - k0]);
        assert(spec_key_char(e0.0[k - k0]));
    }
    assert(s[k1] == enc0[k1 - p]);
    assert(enc0[k1 - p] == lit_entry_mid()[0]);
    assert(s[k1] == '"');
    lemma_scan_quote_finds(s, k0, k1);
    assert forall|t: int| 0 <= t < e0.0.len() implies s.subrange(k0, k1)[t] == e0.0[t] by {
        assert(s[p + (pre.len() + t)] == enc[pre.len() + t]);
        assert(enc[pre.len() + t] == enc0[pre.len() + t]);
        assert(enc0[pre.len() + t] == e0.0[t]);
    }
    assert(s.subrange(k0, k1) =~= e0.0);
    // the fixed text between key and value
    assert forall|t: int| 0 <= t < lit_entry_mid().len() implies s[k1 + t] == lit_entry_mid()[t] by {
        assert(s[k1 + t] == enc0[k1 + t - p]);
    }
    lemma_starts_from_index(s, k1, lit_entry_mid());
    // the value
    assert(s.subrange(pm, p2) =~= dec_int(e0.1)) by {
        assert forall|t: int| 0 <= t < dec_int(e0.1).len() implies s.subrange(pm, p2)[t] == dec_int(
            e0.1,
        )[t] by {
            assert(s[pm + t] == enc0[pm + t - p]);
        }
    }
    if rest.len() == 0 {
        assert(encr.len() == 0);
        assert(p2 == p + enc.len());
        assert(s[p2] == '\n');
        lemma_sp_parse_int_complete(s, pm, e0.1);
        assert(s[p2] != ',');
        assert(sp_entries(s, p, first, fuel) == Some((seq![(s.subrange(k0, k1), e0.1)], p2)));
        assert(seq![(s.subrange(k0, k1), e0.1)] =~= es);
    } else {
        assert(encr == entry_enc(rest[0], false) + entries_enc(rest.drop_first(), false));
        assert(entry_enc(rest[0], false)[0] == ',');
        assert(s[p2] == enc[enc0.len() as int]);
        assert(enc[enc0.len() as int] == encr[0]);
        assert(s[p2] == ',');
        lemma_sp_parse_int_complete(s, pm, e0.1);
        assert(s.subrange(p2, p2 + encr.len()) =~= encr) by {
            assert forall|t: int| 0 <= t < encr.len() implies s.subrange(p2, p2 + encr.len())[t]
                == encr[t] by {
                assert(s[p2 + t] == enc[enc0.len() + t]);
            }
        }
        assert forall|i: int| 0 <= i < rest.len() implies entry_v_wf(#[trigger] rest[i]) by {
            assert(rest[i] == es[i + 1]);
        }
        assert(p2 + encr.len() == p + enc.len());
        lemma_sp_entries_complete(s, rest, p2, false, (fuel - 1) as nat);
        assert(sp_entries(s, p2, false, (fuel - 1) as nat) == Some((rest, p + enc.len())));
        assert((s.subrange(k0, k1), e0.1) == e0);
        assert(seq![e0] + rest =~= es);
        assert(sp_entries(s, p, first, fuel) == Some((seq![e0] + rest, p + enc.len())));
    }
}

/// The parser recovers every well-formed record from its canonical encoding.
#[verifier::rlimit(100)]
pub proof fn lemma_sp_parse_encode(v: RecordV)
    requires
        v.wf(),
    ensures
        sp_parse(spec_encode(v)) == Some(v),
{
    lemma_lits();
    let s = spec_encode(v);
    let dexp = dec_int(v.expiry);
    let de = data_enc(v.data);
    assert(s == lit_head() + v.id + lit_mid1() + dexp + lit_mid2() + de + lit_tail());
    let q = 11 + v.id.len() as int;
    let pm = q + 15;
    let p1 = pm + dexp.len();
    let p2 = p1 + 13;
    let p3 = p2 + de.len() as int - (if v.data.len() == 0 { 0int } else { 4int });
    assert(s.len() == p2 + de.len() + 2);
    // head
    assert(s.subrange(0, 11) =~= lit_head());
    assert(sp_starts(s, 0, lit_head()));
    // identifier, closed by the quote that starts `lit_mid1`
    assert forall|k: int| 11 <= k < q implies s[k] != '"' by {
        assert(s[k] == v.id[k - 11]);
        assert(spec_id_char(v.id[k - 11]));
    }
    assert(s[q] == lit_mid1()[0]);
    lemma_scan_quote_finds(s, 11, q);
    assert(s.subrange(11, q) =~= v.id);
    assert(s.subrange(q, q + 15) =~= lit_mid1());
    assert(sp_starts(s, q, lit_mid1()));
    // expiry
    assert(s.subrange(pm, p1) =~= dexp);
    assert(s[p1] == lit_mid2()[0]);
    assert(!is_digit(','));
    lemma_sp_parse_int_complete(s, pm, v.expiry);
    assert(s.subrange(p1, p1 + 13) =~= lit_mid2());
    assert(sp_starts(s, p1, lit_mid2()));
    // data
    if v.data.len() == 0 {
        assert(de == seq!['}']);
        assert(s.subrange(p2, p2 + 3) =~= lit_empty_close());
        assert(sp_starts(s, p2, lit_empty_close()));
        assert(p2 + 3 == s.len());
        assert(sp_parse(s) == Some(RecordV { id: s.subrange(11, q), expiry: v.expiry, data: Seq::empty() }));
        assert(RecordV { id: s.subrange(11, q), expiry: v.expiry, data: Seq::empty() } =~= v);
    } else {
        let ee = entries_enc(v.data, true);
        assert(de == ee + lit_data_close());
        // the empty-data close cannot match: the first entry starts with a newline
        assert(entry_enc(v.data[0], true)[0] == '\n');
        assert(s[p2] == de[0]);
        assert(de[0] == ee[0]);
        assert(s[p2] == '\n');
        assert(!sp_starts(s, p2, lit_empty_close())) by {
            if sp_starts(s, p2, lit_empty_close()) {
                lemma_subrange_index(s, p2, lit_empty_close());
                assert(s[p2 + 0] == lit_empty_close()[0]);
                assert(s[p2] == '}');
            }
        }
        assert(p3 == p2 + ee.len());
        assert(s.subrange(p2, p2 + ee.len()) =~= ee);
        assert(s[p2 + ee.len()] == de[ee.len() as int]);
        assert(de[ee.len() as int] == lit_data_close()[0]);
        lemma_entries_enc_len(v.data, true);
        lemma_sp_entries_complete(s, v.data, p2, true, s.len() as nat);
        assert(s.subrange(p3, p3 + 6) =~= lit_full_close());
        assert(sp_starts(s, p3, lit_full_close()));
        assert(p3 + 6 == s.len());
        assert(sp_parse(s) == Some(RecordV { id: s.subrange(11, q), expiry: v.expiry, data: v.data }));
        assert(RecordV { id: s.subrange(11, q), expiry: v.expiry, data: v.data } =~= v);
    }
}

/// Round trip: decoding the encoding of a well-formed record yields the
/// record itself.
pub proof fn lemma_decode_encode(v: RecordV)
    requires
        v.wf(),
    ensures
        spec_decode(spec_encode(v)) == Some(v),
{
    lemma_sp_parse_encode(v);
}

/// The canonical encoding is injective on well-formed records.
pub proof fn lemma_encode_injective(v1: RecordV, v2: RecordV)
    requires
        v1.wf(),
        v2.wf(),
        spec_encode(v1) == spec_encode(v2),
    ensures
        v1 == v2,
{
    lemma_sp_parse_encode(v1);
    lemma_sp_parse_encode(v2);
}

// ---------------------------------------------------------------------------
// The executable decoder: each function mirrors its specification twin.
// ---------------------------------------------------------------------------

fn is_digit_ch(c: char) -> (r: bool)
    ensures
        r == is_digit(c),
{
    let u = c as u32;
    48 <= u && u <= 57
}

fn scan_quote(s: &str, start: usize) -> (r: Option<usize>)
    requires
        start <= s@.len(),
    ensures
        r matches Some(j) ==> sp_scan_quote(s@, start as int) == Some(j as int) && start <= j
            < s@.len(),
        r is None ==> sp_scan_quote(s@, start as int) is None,
{
    let n = s.unicode_len();
    let mut i: usize = start;
    while i < n
        invariant
            start <= i <= n,
            n == s@.len(),
            sp_scan_quote(s@, start as int) == sp_scan_quote(s@, i as int),
        decreases n - i,
    {
        if s.get_char(i) == '"' {
            return Some(i);
        }
        i += 1;
    }
    None
}

fn scan_digits(s: &str, start: usize) -> (r: usize)
    requires
        start <= s@.len(),
    ensures
        r as int == sp_scan_digits(s@, start as int),
        start <= r <= s@.len(),
        forall|k: int| start <= k < r ==> is_digit(s@[k]),
        r < s@.len() ==> !is_digit(s@[r as int]),
{
    let n = s.unicode_len();
    let mut i: usize = start;
    while i < n
        invariant
            start <= i <= n,
            n == s@.len(),
            sp_scan_digits(s@, start as int) == sp_scan_digits(s@, i as int),
            forall|k: int| start <= k < i ==> is_digit(s@[k]),
        decreases n - i,
    {
        if !is_digit_ch(s.get_char(i)) {
            return i;
        }
        i += 1;
    }
    n
}

fn starts_with_lit(s: &str, p: usize, lit: &str) -> (r: bool)
    requires
        p <= s@.len(),
    ensures
        r == sp_starts(s@, p as int, lit@),
{
    let n = s.unicode_len();
    let nl = lit.unicode_len();
    if nl > n - p {
        return false;
    }
    let mut i: usize = 0;
    while i < nl
        invariant
            0 <= i <= nl,
            n == s@.len(),
            nl == lit@.len(),
            p + nl <= n,
            forall|t: int| 0 <= t < i ==> s@[p + t] == lit@[t],
        decreases nl - i,
    {
        if s.get_char(p + i) != lit.get_char(i) {
            proof {
                assert(s@.subrange(p as int, p + nl) != lit@) by {
                    if s@.subrange(p as int, p + nl) == lit@ {
                        assert(s@.subrange(p as int, p + nl)[i as int] == lit@[i as int]);
                    }
                }
            }
            return false;
        }
        i += 1;
    }
    proof {
        assert(s@.subrange(p as int, p + nl) =~= lit@);
    }
    true
}

fn parse_digits_value(s: &str, a: usize, b: usize) -> (r: u64)
    requires
        a <= b <= s@.len(),
        b - a <= 19,
        forall|k: int| a <= k < b ==> is_digit(s@[k]),
    ensures
        r as nat == sp_val(s@.subrange(a as int, b as int)),
{
    proof {
        lemma_pow10_19();
        assert(pow10(19) == 10 * pow10(18));
    }
    let mut acc: u64 = 0;
    let mut i: usize = a;
    proof {
        assert(s@.subrange(a as int, a as int) =~= Seq::<char>::empty());
    }
    while i < b
        invariant
            a <= i <= b <= s@.len(),
            b - a <= 19,
            forall|k: int| a <= k < b ==> is_digit(s@[k]),
            acc as nat == sp_val(s@.subrange(a as int, i as int)),
            (acc as nat) < pow10((i - a) as nat),
            pow10(19) == 10000000000000000000,
            pow10(19) == 10 * pow10(18),
        decreases b - i,
    {
        let c = s.get_char(i);
        proof {
            lemma_pow10_mono((i - a) as nat, 18);
            assert(acc < 1000000000000000000);
        }
        let d = (c as u32 - 48) as u64;
        acc = acc * 10 + d;
        proof {
            assert(s@.subrange(a as int, i + 1).drop_last() =~= s@.subrange(a as int, i as int));
            assert(s@.subrange(a as int, i + 1).last() == s@[i as int]);
            assert(d as nat == digit_val(s@[i as int]));
        }
        i += 1;
    }
    acc
}

pub proof fn lemma_pow10_mono(a: nat, b: nat)
    requires
        a <= b,
    ensures
        pow10(a) <= pow10(b),
    decreases b,
{
    if a < b {
        lemma_pow10_mono(a, (b - 1) as nat);
        assert(pow10(b) == 10 * pow10((b - 1) as nat));
    }
}

fn parse_int(s: &str, p: usize) -> (r: Option<(i64, usize)>)
    requires
        p <= s@.len(),
    ensures
        r matches Some(t) ==> sp_parse_int(s@, p as int) == Some((t.0 as int, t.1 as int)) && p
            <= t.1 <= s@.len(),
        r is None ==> sp_parse_int(s@, p as int) is None,
{
    let n = s.unicode_len();
    if p < n && s.get_char(p) == '-' {
        let e = scan_digits(s, p + 1);
        if e == p + 1 || e - (p + 1) > 19 {
            return None;
        }
        let mag = parse_digits_value(s, p + 1, e);
        if mag > 9223372036854775808 {
            return None;
        }
        let v: i64 = if mag == 9223372036854775808 {
            i64::MIN
        } else {
            -(mag as i64)
        };
        Some((v, e))
    } else {
        let e = scan_digits(s, p);
        if e == p || e - p > 19 {
            return None;
        }
        let mag = parse_digits_value(s, p, e);
        if mag > 9223372036854775807 {
            return None;
        }
        Some((mag as i64, e))
    }
}

/// The view of a parsed entry vector.
pub open spec fn entries_view(data: Seq<crate::record::DataEntry>) -> Seq<(Seq<char>, int)> {
    data.map_values(|e: crate::record::DataEntry| e@)
}

fn parse_entries(s: &str, p: usize, first: bool, fuel: usize) -> (r: Option<
    (Vec<crate::record::DataEntry>, usize),
>)
    requires
        p <= s@.len(),
    ensures
        r matches Some(t) ==> sp_entries(s@, p as int, first, fuel as nat) == Some(
            (entries_view(t.0@), t.1 as int),
        ) && p <= t.1 <= s@.len(),
        r is None ==> sp_entries(s@, p as int, first, fuel as nat) is None,
    decreases fuel,
{
    if fuel == 0 {
        return None;
    }
    let n = s.unicode_len();
    let pre: &str = if first {
        "\n    \""
    } else {
        ",\n    \""
    };
    proof {
        lemma_lits();
        reveal_strlit("\n    \"");
        reveal_strlit(",\n    \"");
        if first {
            assert(pre@ =~= lit_entry_pre());
        } else {
            assert(pre@ =~= seq![','] + lit_entry_pre());
        }
    }
    if !starts_with_lit(s, p, pre) {
        return None;
    }
    proof {
        assert(p + pre@.len() <= n);
    }
    let k0 = p + pre.unicode_len();
    let k1_opt = scan_quote(s, k0);
    let k1 = match k1_opt {
        Option::None => {
            return None;
        },
        Option::Some(k1) => k1,
    };
    let key_str = s.substring_char(k0, k1);
    let key = String::from_str(key_str);
    if !crate::record::key_ok(&key) {
        return None;
    }
    proof {
        reveal_strlit("\": ");
        assert("\": "@ == lit_entry_mid());
    }
    if !starts_with_lit(s, k1, "\": ") {
        return None;
    }
    proof {
        assert(k1 + lit_entry_mid().len() <= n);
    }
    let pm = k1 + 3;
    let vi_opt = parse_int(s, pm);
    let (value, p2) = match vi_opt {
        Option::None => {
            return None;
        },
        Option::Some(t) => t,
    };
    let entry = crate::record::DataEntry { key, value };
    proof {
        assert(entry@ == (s@.subrange(k0 as int, k1 as int), value as int));
    }
    if p2 < n && s.get_char(p2) == ',' {
        let rest_opt = parse_entries(s, p2, false, fuel - 1);
        match rest_opt {
            Option::None => {
                return None;
            },
            Option::Some(rp) => {
                let (mut rest, pe) = rp;
                rest.insert(0, entry);
                proof {
                    assert(entries_view(rest@) =~= seq![entry@] + entries_view(
                        rest@.drop_first(),
                    ));
                }
                Some((rest, pe))
            },
        }
    } else {
        let mut one: Vec<crate::record::DataEntry> = Vec::new();
        one.push(entry);
        proof {
            assert(entries_view(one@) =~= seq![entry@]);
        }
        Some((one, p2))
    }
}

fn parse_record(s: &str) -> (r: Option<crate::record::Record>)
    ensures
        r matches Some(rec) ==> sp_parse(s@) == Some(rec@),
        r is None ==> sp_parse(s@) is None,
{
    let n = s.unicode_len();
    proof {
        lemma_lits();
        assert("{\n  \"id\": \""@ == lit_head());
        assert("\",\n  \"expiry\": "@ == lit_mid1());
        assert(",\n  \"data\": {"@ == lit_mid2());
        assert("}\n}"@ == lit_empty_close());
        assert("\n  }\n}"@ == lit_full_close());
    }
    if !starts_with_lit(s, 0, "{\n  \"id\": \"") {
        return None;
    }
    let q_opt = scan_quote(s, 11);
    let q = match q_opt {
        Option::None => {
            return None;
        },
        Option::Some(q) => q,
    };
    let id_str = s.substring_char(11, q);
    let id = crate::record::SessionId::new(String::from_str(id_str));
    if !id.is_safe() {
        return None;
    }
    if !starts_with_lit(s, q, "\",\n  \"expiry\": ") {
        return None;
    }
    proof {
        assert(q + lit_mid1().len() <= n);
    }
    let ei = parse_int(s, q + 15);
    let (exp, p1) = match ei {
        Option::None => {
            return None;
        },
        Option::Some(t) => t,
    };
    if !starts_with_lit(s, p1, ",\n  \"data\": {") {
        return None;
    }
    proof {
        assert(p1 + lit_mid2().len() <= n);
    }
    let p2 = p1 + 13;
    if starts_with_lit(s, p2, "}\n}") && p2 + 3 == n {
        let rec = crate::record::Record { id, expiry: exp, data: Vec::new() };
        proof {
            assert(rec@.data =~= Seq::<(Seq<char>, int)>::empty());
            assert(rec@ =~= RecordV {
                id: s@.subrange(11, q as int),
                expiry: exp as int,
                data: Seq::empty(),
            });
        }
        return Some(rec);
    }
    let er = parse_entries(s, p2, true, n);
    let (data, p3) = match er {
        Option::None => {
            return None;
        },
        Option::Some(t) => t,
    };
    if starts_with_lit(s, p3, "\n  }\n}") && p3 + 6 == n {
        let rec = crate::record::Record { id, expiry: exp, data };
        proof {
            assert(rec@ =~= RecordV {
                id: s@.subrange(11, q as int),
                expiry: exp as int,
                data: entries_view(rec.data@),
            });
        }
        Some(rec)
    } else {
        None
    }
}

/// Deserializes a durable text back into a record.
///
/// Yields a record exactly when the text is the canonical encoding of a
/// well-formed record; any other text — truncated, altered, or written by
/// something else — yields nothing, never an error.
pub fn decode_record(s: &str) -> (r: Option<crate::record::Record>)
    ensures
        r matches Some(rec) ==> rec.wf() && spec_decode(s@) == Some(rec@),
        r is None ==> spec_decode(s@) is None,
{
    let parsed = parse_record(s);
    match parsed {
        Option::None => None,
        Option::Some(rec) => {
            if !rec.is_well_formed() {
                return None;
            }
            let enc = crate::codec::encode_record(&rec);
            let n = s.unicode_len();
            let ne = enc.as_str().unicode_len();
            if ne == n && starts_with_lit(s, 0, enc.as_str()) {
                proof {
                    assert(s@ =~= spec_encode(rec@));
                }
                Some(rec)
            } else {
                proof {
                    assert(s@ != spec_encode(rec@)) by {
                        if s@ == spec_encode(rec@) {
                            assert(s@.subrange(0, enc@.len() as int) =~= enc@);
                        }
                    }
                }
                None
            }
        },
    }
}

} // verus!

