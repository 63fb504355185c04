//! Sequence compaction: renumbering the frames that survive the discard
//! flags into a contiguous 1-based sequence.
//!
//! Frames live on disk under fixed-width, zero-padded decimal file names.
//! This module decides which files stay, which new name each one gets, and
//! how a frame index spells as a file name; the renames and deletions
//! themselves are plain filesystem work done by the caller, strictly after
//! these decisions.

use vstd::prelude::*;

verus! {

/// 1-based original indices of the frames the flags keep, oldest first.
pub open spec fn survivors_spec(discard: Seq<bool>) -> Seq<int>
    decreases discard.len(),
{
    if discard.len() == 0 {
        Seq::empty()
    } else {
        survivors_spec(discard.drop_last()) + (if discard.last() {
            Seq::<int>::empty()
        } else {
            seq![discard.len() as int]
        })
    }
}

/// How many frames the flags discard.
pub open spec fn discard_count(discard: Seq<bool>) -> int
    decreases discard.len(),
{
    if discard.len() == 0 {
        0
    } else {
        discard_count(discard.drop_last()) + (if discard.last() {
            1int
        } else {
            0int
        })
    }
}

/// Compaction loses exactly the discarded frames: survivors and discards
/// together account for every frame once.
pub proof fn lemma_survivor_count(discard: Seq<bool>)
    ensures
        survivors_spec(discard).len() + discard_count(discard) == discard.len(),
        0 <= discard_count(discard) <= discard.len(),
    decreases discard.len(),
{
    if discard.len() > 0 {
        lemma_survivor_count(discard.drop_last());
    }
}

/// Every survivor entry names a live frame, and the original order is
/// preserved: the earliest surviving frame gets the smallest new index.
pub proof fn lemma_survivors_ordered(discard: Seq<bool>)
    ensures
        forall|p: int|
            0 <= p < survivors_spec(discard).len() ==> 1 <= #[trigger] survivors_spec(discard)[p]
                <= discard.len() && !discard[survivors_spec(discard)[p] - 1],
        forall|p: int, q: int|
            0 <= p < q < survivors_spec(discard).len() ==> survivors_spec(discard)[p]
                < survivors_spec(discard)[q],
    decreases discard.len(),
{
    if discard.len() > 0 {
        lemma_survivors_ordered(discard.drop_last());
        let prev = survivors_spec(discard.drop_last());
        let s = survivors_spec(discard);
        assert(discard.drop_last() =~= discard.subrange(0, discard.len() - 1));
        assert forall|p: int|
            0 <= p < s.len() implies 1 <= #[trigger] s[p] <= discard.len() && !discard[s[p]
            - 1] by {
            if p < prev.len() {
                assert(s[p] == prev[p]);
                assert(!discard.drop_last()[prev[p] - 1]);
            } else {
                assert(s[p] == discard.len() as int);
            }
        }
        assert forall|p: int, q: int| 0 <= p < q < s.len() implies s[p] < s[q] by {
            if q < prev.len() {
                assert(s[p] == prev[p] && s[q] == prev[q]);
            } else {
                assert(s[p] == prev[p] && s[q] == discard.len() as int);
                assert(1 <= prev[p] <= discard.drop_last().len());
            }
        }
    }
}

/// Every live frame appears among the survivors: nothing is lost but the
/// discards.
pub proof fn lemma_survivors_complete(discard: Seq<bool>, k: int)
    requires
        0 <= k < discard.len(),
        !discard[k],
    ensures
        survivors_spec(discard).contains(k + 1),
    decreases discard.len(),
{
    lemma_survivor_count(discard);
    if k == discard.len() - 1 {
        assert(survivors_spec(discard)[survivors_spec(discard).len() - 1] == k + 1);
    } else {
        lemma_survivors_complete(discard.drop_last(), k);
        let p = choose|p: int|
            0 <= p < survivors_spec(discard.drop_last()).len() && survivors_spec(
                discard.drop_last(),
            )[p] == k + 1;
        assert(survivors_spec(discard)[p] == k + 1);
    }
}

/// With nothing discarded, compaction is the identity renumbering: frame
/// `p` keeps the name `p`.
pub proof fn lemma_no_discards_identity(discard: Seq<bool>)
    requires
        forall|k: int| 0 <= k < discard.len() ==> !(#[trigger] discard[k]),
    ensures
        survivors_spec(discard) =~= Seq::new(discard.len(), |p: int| p + 1),
    decreases discard.len(),
{
    if discard.len() > 0 {
        lemma_no_discards_identity(discard.drop_last());
    }
}

/// Collects the 1-based indices of the surviving frames, oldest first.
pub fn survivors(discard: &Vec<bool>) -> (r: Vec<usize>)
    ensures
        r@.len() == survivors_spec(discard@).len(),
        forall|p: int| 0 <= p < r@.len() ==> #[trigger] r@[p] as int == survivors_spec(discard@)[p],
{
    let n = discard.len();
    let mut r: Vec<usize> = Vec::new();
    let mut k: usize = 0;
    while k < n
        invariant
            k <= n,
            n == discard@.len(),
            r@.len() == survivors_spec(discard@.subrange(0, k as int)).len(),
            forall|p: int|
                0 <= p < r@.len() ==> #[trigger] r@[p] as int == survivors_spec(
                    discard@.subrange(0, k as int),
                )[p],
        decreases n - k,
    {
        proof {
            let pre = discard@.subrange(0, k as int);
            let cur = discard@.subrange(0, k as int + 1);
            assert(cur.drop_last() =~= pre);
            assert(cur.last() == discard@[k as int]);
            assert(survivors_spec(cur) == survivors_spec(pre) + (if cur.last() {
                Seq::<int>::empty()
            } else {
                seq![cur.len() as int]
            }));
        }
        if !discard[k] {
            r.push(k + 1);
        }
        k = k + 1;
    }
    proof {
        assert(discard@.subrange(0, n as int) =~= discard@);
    }
    r
}

/// The compaction plan: for each surviving frame, its original 1-based
/// index paired with the new 1-based index it is renumbered to.  New
/// indices are contiguous from 1 and keep the original order.
pub fn renumber_plan(discard: &Vec<bool>) -> (r: Vec<(usize, usize)>)
    ensures
        r@.len() == survivors_spec(discard@).len(),
        forall|p: int|
            0 <= p < r@.len() ==> (#[trigger] r@[p]).0 as int == survivors_spec(discard@)[p]
                && r@[p].1 as int == p + 1,
{
    let s = survivors(discard);
    let mut r: Vec<(usize, usize)> = Vec::new();
    let mut p: usize = 0;
    while p < s.len()
        invariant
            p <= s@.len(),
            r@.len() == p,
            s@.len() == survivors_spec(discard@).len(),
            forall|q: int|
                0 <= q < s@.len() ==> #[trigger] s@[q] as int == survivors_spec(discard@)[q],
            forall|q: int|
                0 <= q < p ==> (#[trigger] r@[q]).0 as int == survivors_spec(discard@)[q]
                    && r@[q].1 as int == q + 1,
        decreases s@.len() - p,
    {
        r.push((s[p], p + 1));
        p = p + 1;
    }
    r
}

/// The character of one decimal digit.
pub open spec fn digit_char(d: int) -> char {
    if d == 0 {
        '0'
    } else if d == 1 {
        '1'
    } else if d == 2 {
        '2'
    } else if d == 3 {
        '3'
    } else if d == 4 {
        '4'
    } else if d == 5 {
        '5'
    } else if d == 6 {
        '6'
    } else if d == 7 {
        '7'
    } else if d == 8 {
        '8'
    } else {
        '9'
    }
}

/// The decimal digits of a number, most significant first, no leading
/// zeros (a lone zero spells "0").
pub open spec fn dec_digits(v: nat) -> Seq<char>
    decreases v,
{
    if v < 10 {
        seq![digit_char(v as int)]
    } else {
        dec_digits(v / 10) + seq![digit_char((v % 10) as int)]
    }
}

/// A run of zero characters.
pub open spec fn zero_run(w: nat) -> Seq<char> {
    Seq::new(w, |k: int| '0')
}

/// Frame files are named by their 1-based index, zero-padded on the left
/// to eight digits, with the image extension: index 1 spells
/// "00000001.png".
pub open spec fn frame_name_spec(v: nat) -> Seq<char> {
    let digs = dec_digits(v);
    let pad = if digs.len() >= 8 {
        0nat
    } else {
        (8 - digs.len()) as nat
    };
    zero_run(pad) + digs + seq!['.', 'p', 'n', 'g']
}

/// The character of one decimal digit.
fn char_of_digit(d: u64) -> (c: char)
    requires
        d < 10,
    ensures
        c == digit_char(d as int),
{
    if d == 0 {
        '0'
    } else if d == 1 {
        '1'
    } else if d == 2 {
        '2'
    } else if d == 3 {
        '3'
    } else if d == 4 {
        '4'
    } else if d == 5 {
        '5'
    } else if d == 6 {
        '6'
    } else if d == 7 {
        '7'
    } else if d == 8 {
        '8'
    } else {
        '9'
    }
}

/// Relies on String::push: appends one character at the end of the string.
#[verifier::external_body]
fn push_char(s: &mut String, c: char)
    ensures
        final(s)@ == old(s)@ + seq![c],
{
    s.push(c);
}

/// Spells a frame index as its file name, zero-padded to eight digits.
pub fn frame_name(index: u64) -> (r: String)
    ensures
        r@ == frame_name_spec(index as nat),
{
    let ghost digs = dec_digits(index as nat);
    let mut digits: Vec<char> = Vec::new();
    let mut m = index;
    loop
        invariant_except_break
            digs == dec_digits(index as nat),
            (digits@.len() == 0 && m == index) || (m > 0 && digs == dec_digits(m as nat)
                + digits@.reverse()),
        ensures
            digits@.reverse() == digs,
            digits@.len() >= 1,
        decreases m,
    {
        let d = char_of_digit(m % 10);
        proof {
            assert(digits@.push(d).reverse() =~= seq![d] + digits@.reverse());
            if digits@.len() == 0 && m == index {
                assert(seq![d] + digits@.reverse() =~= seq![d]);
                if m >= 10 {
                    assert(digs == dec_digits((m / 10) as nat) + seq![
                        digit_char((m % 10) as int),
                    ]);
                } else {
                    assert(digs =~= seq![d]);
                }
            } else {
                if m >= 10 {
                    assert(dec_digits(m as nat) == dec_digits((m / 10) as nat) + seq![
                        digit_char((m % 10) as int),
                    ]);
                    assert(dec_digits((m / 10) as nat) + (seq![d] + digits@.reverse()) =~= (
                    dec_digits((m / 10) as nat) + seq![d]) + digits@.reverse());
                } else {
                    assert(dec_digits(m as nat) =~= seq![d]);
                }
            }
        }
        digits.push(d);
        if m < 10 {
            proof {
                assert(digits@.reverse() == digs);
            }
            break ;
        }
        m = m / 10;
    }
    while digits.len() < 8
        invariant
            digs == dec_digits(index as nat),
            digits@.len() >= digs.len() >= 1,
            digs.len() < 8 ==> digits@.len() <= 8,
            digs.len() >= 8 ==> digits@.len() == digs.len(),
            digits@ == digs.reverse() + zero_run((digits@.len() - digs.len()) as nat),
        decreases 8 - digits.len(),
    {
        proof {
            assert(digits@.push('0') =~= digs.reverse() + zero_run(
                (digits@.len() + 1 - digs.len()) as nat,
            ));
        }
        digits.push('0');
    }
    let ghost pad = (digits@.len() - digs.len()) as nat;
    let mut name = String::new();
    let mut t = digits.len();
    while t > 0
        invariant
            t <= digits@.len(),
            name@ == digits@.subrange(t as int, digits@.len() as int).reverse(),
        decreases t,
    {
        t = t - 1;
        push_char(&mut name, digits[t]);
        proof {
            assert(name@ =~= digits@.subrange(t as int, digits@.len() as int).reverse());
        }
    }
    proof {
        assert(digits@.subrange(0, digits@.len() as int) =~= digits@);
        assert(name@ =~= zero_run(pad) + digs);
    }
    push_char(&mut name, '.');
    push_char(&mut name, 'p');
    push_char(&mut name, 'n');
    push_char(&mut name, 'g');
    proof {
        assert(name@ =~= frame_name_spec(index as nat));
    }
    name
}

} // verus!
