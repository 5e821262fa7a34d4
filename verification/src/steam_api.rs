//! The data carried by one snapshot of the remote friends list, and the
//! pure bookkeeping the fetcher needs: splitting identity lists into
//! request-sized batches and rendering them as a query parameter.

use vstd::prelude::*;
use vstd::string::StringExecFns;

verus! {

/// How many identities one profile-summary request may carry.
pub const PROFILE_BATCH_SIZE: usize = 100;

/// A 64-bit Steam identity. The packed internal structure is deliberately
/// not interpreted: the value is treated as an opaque unique handle.
#[derive(Clone, Copy, Debug, PartialEq, Eq, Structural)]
pub struct SteamId(pub u64);

/// How the remote service relates the root identity to a listed one.
#[derive(Clone, Copy, Debug, PartialEq, Eq, Structural)]
pub enum Relationship {
    All,
    Friend,
}

/// One edge of the friends list: who, how related, and since when
/// (seconds since the Unix epoch, as reported by the remote service).
#[derive(Clone, Copy, Debug, PartialEq, Eq, Structural)]
pub struct Friend {
    pub steam_id: SteamId,
    pub relationship: Relationship,
    pub friend_since: i64,
}

/// The per-friend profile data a snapshot carries.
#[derive(Clone, Debug)]
pub struct PlayerSummary {
    pub steam_id: SteamId,
    pub persona_name: String,
    pub profile_url: String,
}

pub open spec fn digit_char(d: int) -> char {
    if d == 0 {
        '0'
    } else if d == 1 {
        '1'
    } else if d == 2 {
        '2'
    } else if d == 3 {
        '3'
    } else if d == 4 {
        '4'
    } else if d == 5 {
        '5'
    } else if d == 6 {
        '6'
    } else if d == 7 {
        '7'
    } else if d == 8 {
        '8'
    } else {
        '9'
    }
}

/// The usual decimal rendering of a number: no sign, no leading zero
/// except for zero itself.
pub open spec fn dec_digits(n: nat) -> Seq<char>
    decreases n,
{
    if n < 10 {
        seq![digit_char(n as int)]
    } else {
        dec_digits(n / 10).push(digit_char((n % 10) as int))
    }
}

/// A batch of identities as one request carries them: their decimal
/// renderings joined by commas.
pub open spec fn comma_joined(ids: Seq<SteamId>) -> Seq<char>
    decreases ids.len(),
{
    if ids.len() == 0 {
        Seq::empty()
    } else if ids.len() == 1 {
        dec_digits(ids[0].0 as nat)
    } else {
        comma_joined(ids.drop_last()) + seq![','] + dec_digits(ids.last().0 as nat)
    }
}

/// The digits pushed by the rendering loop, least significant first,
/// read back in display order.
spec fn rev_chars(ds: Seq<u64>) -> Seq<char>
    decreases ds.len(),
{
    if ds.len() == 0 {
        Seq::empty()
    } else {
        seq![digit_char(ds.last() as int)] + rev_chars(ds.drop_last())
    }
}

proof fn lemma_rev_chars_index(ds: Seq<u64>)
    ensures
        rev_chars(ds).len() == ds.len(),
        forall|j: int|
            0 <= j < ds.len() ==> rev_chars(ds)[j] == digit_char(
                ds[ds.len() - 1 - j] as int,
            ),
    decreases ds.len(),
{
    if ds.len() > 0 {
        lemma_rev_chars_index(ds.drop_last());
    }
}

fn digit_str(d: u64) -> (r: &'static str)
    requires
        d < 10,
    ensures
        r@ == seq![digit_char(d as int)],
{
    let r: &'static str = if d == 0 {
        proof {
            reveal_strlit("0");
        }
        "0"
    } else if d == 1 {
        proof {
            reveal_strlit("1");
        }
        "1"
    } else if d == 2 {
        proof {
            reveal_strlit("2");
        }
        "2"
    } else if d == 3 {
        proof {
            reveal_strlit("3");
        }
        "3"
    } else if d == 4 {
        proof {
            reveal_strlit("4");
        }
        "4"
    } else if d == 5 {
        proof {
            reveal_strlit("5");
        }
        "5"
    } else if d == 6 {
        proof {
            reveal_strlit("6");
        }
        "6"
    } else if d == 7 {
        proof {
            reveal_strlit("7");
        }
        "7"
    } else if d == 8 {
        proof {
            reveal_strlit("8");
        }
        "8"
    } else {
        proof {
            reveal_strlit("9");
        }
        "9"
    };
    proof {
        assert(r@ =~= seq![digit_char(d as int)]);
    }
    r
}

/// Renders a number in decimal, digit by digit.
pub fn u64_to_decimal(n: u64) -> (r: String)
    ensures
        r@ == dec_digits(n as nat),
{
    let mut digits: Vec<u64> = Vec::new();
    let mut m: u64 = n;
    #[verifier::loop_isolation(true)]
    loop
        invariant_except_break
            dec_digits(n as nat) == dec_digits(m as nat) + rev_chars(digits@),
        invariant
            forall|j: int| 0 <= j < digits@.len() ==> digits@[j] < 10,
        ensures
            dec_digits(n as nat) == rev_chars(digits@),
            digits@.len() >= 1,
        decreases m,
    {
        let d = m % 10;
        let next = m / 10;
        proof {
            assert(digits@.push(d).drop_last() =~= digits@);
            if m >= 10 {
                assert(dec_digits(m as nat) == dec_digits(next as nat).push(digit_char(d as int)));
                assert(dec_digits(next as nat).push(digit_char(d as int)) + rev_chars(digits@)
                    =~= dec_digits(next as nat) + rev_chars(digits@.push(d)));
            } else {
                assert(dec_digits(m as nat) =~= seq![digit_char(d as int)]);
                assert(dec_digits(m as nat) + rev_chars(digits@) =~= rev_chars(digits@.push(d)));
            }
        }
        digits.push(d);
        m = next;
        if m == 0 {
            break;
        }
    }
    let mut s = String::new();
    let ghost len = digits@.len() as int;
    let mut i: usize = digits.len();
    while i > 0
        invariant
            i <= digits@.len(),
            digits@.len() == len,
            forall|j: int| 0 <= j < digits@.len() ==> digits@[j] < 10,
            s@.len() == len - i,
            forall|j: int| 0 <= j < s@.len() ==> s@[j] == digit_char(digits@[len - 1 - j] as int),
        decreases i,
    {
        i -= 1;
        let ds = digit_str(digits[i]);
        s.append(ds);
    }
    proof {
        lemma_rev_chars_index(digits@);
        assert(s@ =~= rev_chars(digits@));
    }
    s
}

impl SteamId {
    /// The identity written out in decimal, as the remote service and
    /// the query strings carry it.
    pub fn to_decimal(&self) -> (r: String)
        ensures
            r@ == dec_digits(self.0 as nat),
    {
        u64_to_decimal(self.0)
    }
}

/// Renders a batch of identities as the comma-separated value of the
/// query parameter a profile-summary request carries.
pub fn ids_query(ids: &Vec<SteamId>) -> (r: String)
    ensures
        r@ == comma_joined(ids@),
{
    let mut s = String::new();
    let mut k: usize = 0;
    proof {
        assert(ids@.take(0) =~= Seq::<SteamId>::empty());
    }
    while k < ids.len()
        invariant
            k <= ids@.len(),
            s@ == comma_joined(ids@.take(k as int)),
        decreases ids@.len() - k,
    {
        proof {
            assert(ids@.take(k as int + 1).drop_last() =~= ids@.take(k as int));
            assert(ids@.take(k as int + 1).last() == ids@[k as int]);
        }
        if k > 0 {
            proof {
                reveal_strlit(",");
            }
            s.append(",");
            proof {
                assert(","@ =~= seq![',']);
            }
        }
        let d = u64_to_decimal(ids[k].0);
        s.append(d.as_str());
        proof {
            if k == 0 {
                assert(s@ =~= comma_joined(ids@.take(k as int + 1)));
            } else {
                assert(s@ =~= comma_joined(ids@.take(k as int)) + seq![','] + dec_digits(
                    ids@[k as int].0 as nat,
                ));
            }
        }
        k += 1;
    }
    proof {
        assert(ids@.take(ids@.len() as int) =~= ids@);
    }
    s
}

/// Splits a list of identities into the fixed-size batches that the
/// profile lookups are fanned out over: every batch is full except
/// possibly the last, and reading the batches back in order gives the
/// input list.
pub fn chunk_ids(ids: &Vec<SteamId>) -> (r: Vec<Vec<SteamId>>)
    ensures
        ids@.len() == 0 ==> r@.len() == 0,
        ids@.len() > 0 ==> (r@.len() - 1) * (PROFILE_BATCH_SIZE as int) < ids@.len() <= r@.len()
            * (PROFILE_BATCH_SIZE as int),
        forall|j: int|
            0 <= j < r@.len() ==> (#[trigger] r@[j])@ == ids@.subrange(
                j * (PROFILE_BATCH_SIZE as int),
                if (j + 1) * (PROFILE_BATCH_SIZE as int) <= ids@.len() {
                    (j + 1) * (PROFILE_BATCH_SIZE as int)
                } else {
                    ids@.len() as int
                },
            ),
{
    let mut r: Vec<Vec<SteamId>> = Vec::new();
    let mut pos: usize = 0;
    while pos < ids.len()
        invariant
            pos <= ids@.len(),
            r@.len() == 0 ==> pos == 0,
            r@.len() > 0 ==> (r@.len() - 1) * (PROFILE_BATCH_SIZE as int) < pos <= r@.len() * (
            PROFILE_BATCH_SIZE as int),
            pos < ids@.len() ==> pos == r@.len() * (PROFILE_BATCH_SIZE as int),
            forall|j: int|
                0 <= j < r@.len() ==> (#[trigger] r@[j])@ == ids@.subrange(
                    j * (PROFILE_BATCH_SIZE as int),
                    if (j + 1) * (PROFILE_BATCH_SIZE as int) <= pos {
                        (j + 1) * (PROFILE_BATCH_SIZE as int)
                    } else {
                        pos as int
                    },
                ),
        decreases ids@.len() - pos,
    {
        let end = if ids.len() - pos > PROFILE_BATCH_SIZE {
            pos + PROFILE_BATCH_SIZE
        } else {
            ids.len()
        };
        let mut chunk: Vec<SteamId> = Vec::new();
        let mut q = pos;
        proof {
            assert(chunk@ =~= ids@.subrange(pos as int, pos as int));
        }
        while q < end
            invariant
                pos <= q <= end <= ids@.len(),
                chunk@ == ids@.subrange(pos as int, q as int),
            decreases end - q,
        {
            proof {
                assert(ids@.subrange(pos as int, q as int + 1) =~= ids@.subrange(
                    pos as int,
                    q as int,
                ).push(ids@[q as int]));
            }
            chunk.push(ids[q]);
            q += 1;
        }
        let ghost old_r = r@;
        r.push(chunk);
        proof {
            assert forall|j: int|
                0 <= j < r@.len() implies (#[trigger] r@[j])@ == ids@.subrange(
                j * (PROFILE_BATCH_SIZE as int),
                if (j + 1) * (PROFILE_BATCH_SIZE as int) <= end {
                    (j + 1) * (PROFILE_BATCH_SIZE as int)
                } else {
                    end as int
                },
            ) by {
                if j < old_r.len() {
                    assert(r@[j] == old_r[j]);
                } else {
                    assert(j == old_r.len());
                    assert(r@[j] == chunk);
                }
            };
        }
        pos = end;
    }
    r
}

} // verus!
