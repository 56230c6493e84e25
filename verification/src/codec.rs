use vstd::prelude::*;
use crate::record::{Record, RecordV};

verus! {

// ---------------------------------------------------------------------------
// The durable representation.
//
// A record is stored as pretty-printed JSON text:
//
//   {
//     "id": "<identifier>",
//     "expiry": <integer>,
//     "data": {
//       "<key>": <integer>,
//       ...
//     }
//   }
//
// The encoding below is canonical: every well-formed record has exactly one
// encoding, and the decoder accepts exactly the canonical encodings, so a
// corrupted file can never decode to anything.
// ---------------------------------------------------------------------------

pub open spec fn lit_head() -> Seq<char> {
    "{\n  \"id\": \""@
}

pub open spec fn lit_mid1() -> Seq<char> {
    "\",\n  \"expiry\": "@
}

pub open spec fn lit_mid2() -> Seq<char> {
    ",\n  \"data\": {"@
}

pub open spec fn lit_entry_pre() -> Seq<char> {
    "\n    \""@
}

pub open spec fn lit_entry_mid() -> Seq<char> {
    "\": "@
}

pub open spec fn lit_data_close() -> Seq<char> {
    "\n  }"@
}

pub open spec fn lit_tail() -> Seq<char> {
    "\n}"@
}

pub open spec fn digit_char(d: nat) -> char {
    if d == 0 {
        '0'
    } else if d == 1 {
        '1'
    } else if d == 2 {
        '2'
    } else if d == 3 {
        '3'
    } else if d == 4 {
        '4'
    } else if d == 5 {
        '5'
    } else if d == 6 {
        '6'
    } else if d == 7 {
        '7'
    } else if d == 8 {
        '8'
    } else {
        '9'
    }
}

/// The decimal digits of `n`, most significant first, no sign, no leading
/// zeros (a single `'0'` for zero).
pub open spec fn dec_digits(n: nat) -> Seq<char>
    decreases n,
{
    if n < 10 {
        seq![digit_char(n)]
    } else {
        dec_digits(n / 10).push(digit_char(n % 10))
    }
}

/// The decimal form of a signed integer: a `'-'` before the digits of the
/// magnitude when negative.
pub open spec fn dec_int(v: int) -> Seq<char> {
    if v < 0 {
        seq!['-'] + dec_digits((-v) as nat)
    } else {
        dec_digits(v as nat)
    }
}

pub open spec fn entry_enc(e: (Seq<char>, int), first: bool) -> Seq<char> {
    (if first {
        Seq::<char>::empty()
    } else {
        seq![',']
    }) + lit_entry_pre() + e.0 + lit_entry_mid() + dec_int(e.1)
}

pub open spec fn entries_enc(es: Seq<(Seq<char>, int)>, first: bool) -> Seq<char>
    decreases es.len(),
{
    if es.len() == 0 {
        Seq::<char>::empty()
    } else {
        entry_enc(es[0], first) + entries_enc(es.drop_first(), false)
    }
}

pub open spec fn data_enc(es: Seq<(Seq<char>, int)>) -> Seq<char> {
    if es.len() == 0 {
        seq!['}']
    } else {
        entries_enc(es, true) + lit_data_close()
    }
}

/// The canonical durable text of a record.
pub open spec fn spec_encode(v: RecordV) -> Seq<char> {
    lit_head() + v.id + lit_mid1() + dec_int(v.expiry) + lit_mid2() + data_enc(v.data)
        + lit_tail()
}

// ---------------------------------------------------------------------------
// The encoder.
// ---------------------------------------------------------------------------

fn digit_str(d: u64) -> (r: &'static str)
    requires
        d < 10,
    ensures
        r@ == seq![digit_char(d as nat)],
{
    proof {
        reveal_strlit("0");
        reveal_strlit("1");
        reveal_strlit("2");
        reveal_strlit("3");
        reveal_strlit("4");
        reveal_strlit("5");
        reveal_strlit("6");
        reveal_strlit("7");
        reveal_strlit("8");
        reveal_strlit("9");
    }
    let r = if d == 0 {
        "0"
    } else if d == 1 {
        "1"
    } else if d == 2 {
        "2"
    } else if d == 3 {
        "3"
    } else if d == 4 {
        "4"
    } else if d == 5 {
        "5"
    } else if d == 6 {
        "6"
    } else if d == 7 {
        "7"
    } else if d == 8 {
        "8"
    } else {
        "9"
    };
    proof {
        assert(r@ =~= seq![digit_char(d as nat)]);
    }
    r
}

fn append_u64(out: &mut String, n: u64)
    ensures
        final(out)@ == old(out)@ + dec_digits(n as nat),
    decreases n,
{
    if n < 10 {
        out.append(digit_str(n));
        proof {
            assert(out@ =~= old(out)@ + dec_digits(n as nat));
        }
    } else {
        append_u64(out, n / 10);
        out.append(digit_str(n % 10));
        proof {
            assert(out@ =~= old(out)@ + dec_digits(n as nat));
        }
    }
}

fn append_i64(out: &mut String, v: i64)
    ensures
        final(out)@ == old(out)@ + dec_int(v as int),
{
    if v >= 0 {
        append_u64(out, v as u64);
    } else {
        proof {
            reveal_strlit("-");
        }
        out.append("-");
        let mag: u64 = if v == i64::MIN {
            9223372036854775808u64
        } else {
            (-v) as u64
        };
        proof {
            assert(mag as nat == (-(v as int)) as nat);
        }
        append_u64(out, mag);
        proof {
            assert(out@ =~= old(out)@ + dec_int(v as int));
        }
    }
}

/// Serializes a record into its canonical durable text.
pub fn encode_record(r: &Record) -> (out: String)
    ensures
        out@ == spec_encode(r@),
{
    let mut out = String::new();
    out.append("{\n  \"id\": \"");
    out.append(r.id.text.as_str());
    out.append("\",\n  \"expiry\": ");
    append_i64(&mut out, r.expiry);
    out.append(",\n  \"data\": {");
    let ghost mid = out@;
    let ghost es = r@.data;
    let n = r.data.len();
    if n == 0 {
        proof {
            reveal_strlit("}");
        }
        out.append("}");
        proof {
            assert(out@ =~= mid + data_enc(es));
        }
    } else {
        let mut i: usize = 0;
        while i < n
            invariant
                0 < n == r.data@.len(),
                es == r@.data,
                es.len() == n,
                0 <= i <= n,
                out@ == mid + entries_enc(es.take(i as int), true),
            decreases n - i,
        {
            if i > 0 {
                proof {
                    reveal_strlit(",");
                }
                out.append(",");
            }
            out.append("\n    \"");
            out.append(r.data[i].key.as_str());
            out.append("\": ");
            append_i64(&mut out, r.data[i].value);
            proof {
                assert(es[i as int] == r.data@[i as int]@);
                lemma_entries_enc_snoc(es.take(i as int), es[i as int], true);
                assert(es.take(i as int).push(es[i as int]) =~= es.take(i as int + 1));
                assert(out@ =~= mid + entries_enc(es.take(i as int + 1), true));
            }
            i += 1;
        }
        out.append("\n  }");
        proof {
            assert(es.take(n as int) =~= es);
            assert(out@ =~= mid + data_enc(es));
        }
    }
    out.append("\n}");
    proof {
        assert(out@ =~= spec_encode(r@));
    }
    out
}

/// Appending one entry to an entry list extends its encoding by that entry's
/// encoding (with a separating comma unless the list was empty).
pub proof fn lemma_entries_enc_snoc(es: Seq<(Seq<char>, int)>, e: (Seq<char>, int), first: bool)
    ensures
        entries_enc(es.push(e), first) == entries_enc(es, first) + entry_enc(
            e,
            first && es.len() == 0,
        ),
    decreases es.len(),
{
    if es.len() == 0 {
        assert(es.push(e)[0] == e);
        assert(es.push(e).drop_first() =~= es);
        assert(entries_enc(es, false) == Seq::<char>::empty());
        assert(entries_enc(es, first) == Seq::<char>::empty());
        assert(entries_enc(es.push(e), first) == entry_enc(e, first) + entries_enc(es, false));
        assert(entries_enc(es.push(e), first) =~= entries_enc(es, first) + entry_enc(
            e,
            first && es.len() == 0,
        ));
    } else {
        assert(es.push(e).drop_first() =~= es.drop_first().push(e));
        assert(es.push(e)[0] == es[0]);
        lemma_entries_enc_snoc(es.drop_first(), e, false);
        assert(entries_enc(es.push(e), first) =~= entries_enc(es, first) + entry_enc(e, false));
    }
}

} // verus!
