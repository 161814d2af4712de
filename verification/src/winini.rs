//! Raw key-value section reader: a literal split of a flat, null-delimited
//! wide-character section buffer into keys and values.
//!
//! The first `'='` of a line ends the key and starts the value; the null
//! code unit ends the value and starts the next line; a second consecutive
//! null ends the section.  Inside a value every character stands for itself
//! — `'='` included, along with the comments and quotes a grammar-based
//! parser would mis-tokenize — so the split stays literal.  A null that
//! closes no started value produces no entry: an absent section reads back
//! as two empty lists, and a malformed line without `'='` contributes
//! nothing.  The platform facility that fills such a buffer caps it at the
//! classic 16-bit signed-length ceiling; a section beyond that arrives
//! silently truncated, a known limitation of the format rather than of this
//! reader.

use vstd::prelude::*;

verus! {

/// Code unit of `'='`.
pub const EQUALS_UNIT: u16 = 61;

/// The keys and values read out of one section buffer, pairwise: the i-th
/// key belongs to the i-th value.  Keys and values keep a trailing null
/// terminator, so no lossy text conversion happens between reading a
/// section and writing it back.
pub struct SectionScan {
    pub keys: Seq<Seq<u16>>,
    pub values: Seq<Seq<u16>>,
}

/// One step per code unit from position `i`: `start` is where the current
/// run began, `in_value` whether a key has been ended by `'='` and its
/// value is being read, and `was_null` whether the previous unit was null.
/// A buffer that ends mid-value closes that value at the buffer's end.
pub open spec fn scan_from(
    buf: Seq<u16>,
    i: int,
    start: int,
    in_value: bool,
    was_null: bool,
    acc: SectionScan,
) -> SectionScan
    decreases buf.len() - i,
{
    if i < 0 || i >= buf.len() {
        if in_value {
            SectionScan {
                keys: acc.keys,
                values: acc.values.push(buf.subrange(start, buf.len() as int).push(0)),
            }
        } else {
            acc
        }
    } else if buf[i] == 0 {
        if was_null {
            acc
        } else if in_value {
            scan_from(
                buf,
                i + 1,
                i + 1,
                false,
                true,
                SectionScan {
                    keys: acc.keys,
                    values: acc.values.push(buf.subrange(start, i).push(0)),
                },
            )
        } else {
            scan_from(buf, i + 1, i + 1, false, true, acc)
        }
    } else if buf[i] == EQUALS_UNIT && !in_value {
        scan_from(
            buf,
            i + 1,
            i + 1,
            true,
            false,
            SectionScan { keys: acc.keys.push(buf.subrange(start, i).push(0)), values: acc.values },
        )
    } else {
        scan_from(buf, i + 1, start, in_value, false, acc)
    }
}

/// The keys and values of a whole section buffer.
pub open spec fn scan_section_spec(buf: Seq<u16>) -> SectionScan {
    scan_from(buf, 0, 0, false, false, SectionScan { keys: Seq::empty(), values: Seq::empty() })
}

/// Keys and values always pair up: every key ended by `'='` gets exactly
/// one value, closed by its null or by the buffer's end.
pub proof fn lemma_scan_from_balanced(
    buf: Seq<u16>,
    i: int,
    start: int,
    in_value: bool,
    was_null: bool,
    acc: SectionScan,
)
    requires
        acc.keys.len() == acc.values.len() + (if in_value {
            1int
        } else {
            0int
        }),
        was_null ==> !in_value,
    ensures
        scan_from(buf, i, start, in_value, was_null, acc).keys.len() == scan_from(
            buf,
            i,
            start,
            in_value,
            was_null,
            acc,
        ).values.len(),
    decreases buf.len() - i,
{
    if 0 <= i < buf.len() {
        if buf[i] == 0 {
            if was_null {
            } else if in_value {
                lemma_scan_from_balanced(
                    buf,
                    i + 1,
                    i + 1,
                    false,
                    true,
                    SectionScan {
                        keys: acc.keys,
                        values: acc.values.push(buf.subrange(start, i).push(0)),
                    },
                );
            } else {
                lemma_scan_from_balanced(buf, i + 1, i + 1, false, true, acc);
            }
        } else if buf[i] == EQUALS_UNIT && !in_value {
            lemma_scan_from_balanced(
                buf,
                i + 1,
                i + 1,
                true,
                false,
                SectionScan {
                    keys: acc.keys.push(buf.subrange(start, i).push(0)),
                    values: acc.values,
                },
            );
        } else {
            lemma_scan_from_balanced(buf, i + 1, start, in_value, false, acc);
        }
    }
}

/// The two lists of a scanned section have the same length.
pub proof fn lemma_scan_section_balanced(buf: Seq<u16>)
    ensures
        scan_section_spec(buf).keys.len() == scan_section_spec(buf).values.len(),
{
    lemma_scan_from_balanced(
        buf,
        0,
        0,
        false,
        false,
        SectionScan { keys: Seq::empty(), values: Seq::empty() },
    );
}

/// The sequence-of-units views of a list of unit vectors.
pub open spec fn seq_unit_views(v: Seq<Vec<u16>>) -> Seq<Seq<u16>> {
    v.map_values(|x: Vec<u16>| x@)
}

pub proof fn lemma_seq_unit_views_push(v: Seq<Vec<u16>>, x: Vec<u16>)
    ensures
        seq_unit_views(v.push(x)) == seq_unit_views(v).push(x@),
{
    assert(seq_unit_views(v.push(x)) =~= seq_unit_views(v).push(x@));
}

/// Reads the keys and values out of a section buffer, in the section's
/// order and pairwise equal in number.  An absent section — a buffer that
/// opens with its double null — yields two empty lists, not an error.
pub fn scan_section(buf: &Vec<u16>) -> (r: (Vec<Vec<u16>>, Vec<Vec<u16>>))
    ensures
        seq_unit_views(r.0@) == scan_section_spec(buf@).keys,
        seq_unit_views(r.1@) == scan_section_spec(buf@).values,
        r.0@.len() == r.1@.len(),
{
    let mut keys: Vec<Vec<u16>> = Vec::new();
    let mut values: Vec<Vec<u16>> = Vec::new();
    let mut cur: Vec<u16> = Vec::new();
    let mut in_value: bool = false;
    let mut was_null: bool = false;
    let ghost mut start: int = 0;
    let mut i: usize = 0;
    let n = buf.len();
    proof {
        assert(cur@ =~= buf@.subrange(0, 0));
        assert(seq_unit_views(keys@) =~= Seq::<Seq<u16>>::empty());
        assert(seq_unit_views(values@) =~= Seq::<Seq<u16>>::empty());
    }
    while i < n
        invariant
            i <= n,
            n == buf@.len(),
            0 <= start <= i,
            keys@.len() == values@.len() + (if in_value {
                1int
            } else {
                0int
            }),
            was_null ==> !in_value,
            cur@ == buf@.subrange(start, i as int),
            scan_section_spec(buf@) == scan_from(
                buf@,
                i as int,
                start,
                in_value,
                was_null,
                SectionScan { keys: seq_unit_views(keys@), values: seq_unit_views(values@) },
            ),
        decreases n - i,
    {
        let c = buf[i];
        if c == 0 {
            if was_null {
                proof {
                    lemma_scan_from_balanced(
                        buf@,
                        i as int,
                        start,
                        in_value,
                        was_null,
                        SectionScan {
                            keys: seq_unit_views(keys@),
                            values: seq_unit_views(values@),
                        },
                    );
                }
                return (keys, values);
            }
            if in_value {
                let mut v = cur;
                v.push(0);
                proof {
                    assert(v@ =~= buf@.subrange(start, i as int).push(0));
                    lemma_seq_unit_views_push(values@, v);
                }
                values.push(v);
                cur = Vec::new();
                in_value = false;
            } else {
                cur = Vec::new();
            }
            was_null = true;
            proof {
                start = i + 1;
                assert(cur@ =~= buf@.subrange(i + 1, i + 1));
            }
        } else if c == EQUALS_UNIT && !in_value {
            let mut k = cur;
            k.push(0);
            proof {
                assert(k@ =~= buf@.subrange(start, i as int).push(0));
                lemma_seq_unit_views_push(keys@, k);
            }
            keys.push(k);
            cur = Vec::new();
            in_value = true;
            was_null = false;
            proof {
                start = i + 1;
                assert(cur@ =~= buf@.subrange(i + 1, i + 1));
            }
        } else {
            cur.push(c);
            was_null = false;
            proof {
                assert(cur@ =~= buf@.subrange(start, i + 1));
            }
        }
        i = i + 1;
    }
    if in_value {
        let mut v = cur;
        v.push(0);
        proof {
            assert(v@ =~= buf@.subrange(start, n as int).push(0));
            lemma_seq_unit_views_push(values@, v);
        }
        values.push(v);
    }
    (keys, values)
}

} // verus!
