//! The journal counter at the head of every plaintext page.

use vstd::prelude::*;
use crate::layout::{JOURNAL_WIDTH, PAGE_BUF_LEN};

verus! {

/// The natural number that the bytes of `s` spell, least significant first.
pub open spec fn le_nat(s: Seq<u8>) -> nat
    decreases s.len(),
{
    if s.len() == 0 {
        0
    } else {
        s[0] as nat + 256 * le_nat(s.drop_first())
    }
}

/// Whether every byte of `s` is 255.
pub open spec fn all_ones(s: Seq<u8>) -> bool {
    forall|i: int| 0 <= i < s.len() ==> s[i] == 255
}

/// The counter `s` stepped by one: the carry runs from the first byte up,
/// and a counter of all ones wraps to zero.
pub open spec fn bump(s: Seq<u8>) -> Seq<u8>
    decreases s.len(),
{
    if s.len() == 0 {
        s
    } else if s[0] < 255 {
        s.update(0, (s[0] + 1) as u8)
    } else {
        seq![0u8] + bump(s.drop_first())
    }
}

/// The journal counter of a plaintext page.
pub open spec fn journal_of(page: Seq<u8>) -> nat {
    le_nat(page.subrange(0, JOURNAL_WIDTH as int))
}

/// A plaintext page with its journal counter stepped by one.
pub open spec fn journal_bumped(page: Seq<u8>) -> Seq<u8> {
    bump(page.subrange(0, JOURNAL_WIDTH as int)) + page.subrange(
        JOURNAL_WIDTH as int,
        page.len() as int,
    )
}

/// Stepping a counter keeps its width.
pub proof fn lemma_bump_len(s: Seq<u8>)
    ensures
        bump(s).len() == s.len(),
    decreases s.len(),
{
    if s.len() > 0 && s[0] == 255 {
        lemma_bump_len(s.drop_first());
    }
}

/// Stepping a counter adds one to the number it spells, unless every byte
/// is 255: then the result spells zero.
pub proof fn lemma_bump_value(s: Seq<u8>)
    ensures
        all_ones(s) ==> le_nat(bump(s)) == 0,
        !all_ones(s) ==> le_nat(bump(s)) == le_nat(s) + 1,
    decreases s.len(),
{
    if s.len() == 0 {
    } else if s[0] < 255 {
        let t = s.update(0, (s[0] + 1) as u8);
        assert(t.drop_first() =~= s.drop_first());
        assert(s[0] != 255);
    } else {
        let rest = s.drop_first();
        lemma_bump_value(rest);
        let t = seq![0u8] + bump(rest);
        assert(t.drop_first() =~= bump(rest));
        assert(t[0] == 0);
        if all_ones(rest) {
            assert forall|i: int| 0 <= i < s.len() implies s[i] == 255 by {
                if i > 0 {
                    assert(rest[i - 1] == s[i]);
                }
            }
        } else {
            let i = choose|i: int| 0 <= i < rest.len() && rest[i] != 255;
            assert(s[i + 1] == rest[i]);
        }
    }
}

/// Writing a page steps its journal counter by one, unless the counter
/// has reached its greatest value: then it starts again at zero.
pub proof fn law_journal_steps(page: Seq<u8>)
    requires
        page.len() >= JOURNAL_WIDTH,
    ensures
        all_ones(page.subrange(0, JOURNAL_WIDTH as int)) ==> journal_of(journal_bumped(page)) == 0,
        !all_ones(page.subrange(0, JOURNAL_WIDTH as int)) ==> journal_of(journal_bumped(page))
            == journal_of(page) + 1,
{
    let head = page.subrange(0, JOURNAL_WIDTH as int);
    lemma_bump_len(head);
    lemma_bump_value(head);
    assert(journal_bumped(page).subrange(0, JOURNAL_WIDTH as int) =~= bump(head));
}

/// Where the first `k` bytes are 255 and the next one is not, stepping
/// clears those `k` bytes and adds one to the next.
pub proof fn lemma_bump_carry(s: Seq<u8>, k: int)
    requires
        0 <= k < s.len(),
        forall|j: int| 0 <= j < k ==> s[j] == 255,
        s[k] < 255,
    ensures
        bump(s).len() == s.len(),
        forall|j: int| 0 <= j < k ==> bump(s)[j] == 0,
        bump(s)[k] == s[k] + 1,
        forall|j: int| k < j < s.len() ==> bump(s)[j] == s[j],
    decreases s.len(),
{
    lemma_bump_len(s);
    if k > 0 {
        let rest = s.drop_first();
        assert forall|j: int| 0 <= j < k - 1 implies rest[j] == 255 by {
            assert(rest[j] == s[j + 1]);
        }
        lemma_bump_carry(rest, k - 1);
        let t = seq![0u8] + bump(rest);
        assert forall|j: int| 0 < j < s.len() implies t[j] == bump(rest)[j - 1] by {}
        assert forall|j: int| k < j < s.len() implies bump(s)[j] == s[j] by {
            assert(t[j] == bump(rest)[j - 1]);
            assert(rest[j - 1] == s[j]);
        }
        assert forall|j: int| 0 <= j < k implies bump(s)[j] == 0 by {
            if j > 0 {
                assert(t[j] == bump(rest)[j - 1]);
            }
        }
        assert(t[k] == bump(rest)[k - 1]);
        assert(rest[k - 1] == s[k]);
    }
}

/// Where every byte is 255, stepping clears them all.
pub proof fn lemma_bump_wrap(s: Seq<u8>)
    requires
        all_ones(s),
    ensures
        bump(s).len() == s.len(),
        forall|j: int| 0 <= j < s.len() ==> bump(s)[j] == 0,
    decreases s.len(),
{
    lemma_bump_len(s);
    if s.len() > 0 {
        let rest = s.drop_first();
        assert forall|j: int| 0 <= j < rest.len() implies rest[j] == 255 by {
            assert(rest[j] == s[j + 1]);
        }
        lemma_bump_wrap(rest);
        let t = seq![0u8] + bump(rest);
        assert forall|j: int| 0 < j < s.len() implies t[j] == bump(rest)[j - 1] by {}
    }
}

/// Steps the journal counter of a plaintext page in place.
pub fn bump_journal(page: &mut Vec<u8>)
    requires
        old(page).len() == PAGE_BUF_LEN,
    ensures
        final(page)@ == journal_bumped(old(page)@),
        final(page)@.len() == PAGE_BUF_LEN,
{
    let ghost head = page@.subrange(0, JOURNAL_WIDTH as int);
    let mut i: usize = 0;
    let mut carry = true;
    while i < JOURNAL_WIDTH && carry
        invariant
            i <= JOURNAL_WIDTH,
            page@.len() == PAGE_BUF_LEN,
            old(page)@.len() == PAGE_BUF_LEN,
            head == old(page)@.subrange(0, JOURNAL_WIDTH as int),
            carry ==> forall|j: int| 0 <= j < i ==> head[j] == 255,
            carry ==> forall|j: int| 0 <= j < i ==> page@[j] == 0,
            carry ==> forall|j: int| i <= j < page@.len() ==> page@[j] == old(page)@[j],
            !carry ==> page@ == journal_bumped(old(page)@),
        decreases JOURNAL_WIDTH - i + (if carry { 1int } else { 0int }),
    {
        let b = page[i];
        if b == 255 {
            page.set(i, 0);
            i += 1;
        } else {
            page.set(i, b + 1);
            carry = false;
            proof {
                lemma_bump_carry(head, i as int);
                let jb = journal_bumped(old(page)@);
                assert(head.len() == JOURNAL_WIDTH);
                assert forall|j: int| 0 <= j < page@.len() implies page@[j] == jb[j] by {
                    if j < JOURNAL_WIDTH {
                        assert(jb[j] == bump(head)[j]);
                        assert(head[j] == old(page)@[j]);
                    } else {
                        assert(jb[j] == old(page)@[j]);
                    }
                }
                assert(page@ =~= jb);
            }
        }
    }
    proof {
        if carry {
            assert(head.len() == JOURNAL_WIDTH);
            lemma_bump_wrap(head);
            let jb = journal_bumped(old(page)@);
            assert forall|j: int| 0 <= j < page@.len() implies page@[j] == jb[j] by {
                if j < JOURNAL_WIDTH {
                    assert(jb[j] == bump(head)[j]);
                } else {
                    assert(jb[j] == old(page)@[j]);
                }
            }
            assert(page@ =~= jb);
        }
    }
}

} // verus!
