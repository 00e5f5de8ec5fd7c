//! Ordering target events by tick: a stable merge of lists already in order.
use vstd::prelude::*;
use crate::target::Event;

verus! {

/// Whether the ticks of `s` never decrease.
pub open spec fn tick_sorted(s: Seq<Event>) -> bool {
    forall|x: int, y: int| 0 <= x < y < s.len() ==> (#[trigger] s[x]).tick <= (#[trigger] s[y]).tick
}

/// The events of `s` at tick `t`, in their order in `s`.
pub open spec fn at_tick(s: Seq<Event>, t: u32) -> Seq<Event>
    decreases s.len(),
{
    if s.len() == 0 {
        Seq::empty()
    } else {
        let rest = at_tick(s.drop_last(), t);
        if s.last().tick == t { rest.push(s.last()) } else { rest }
    }
}

/// Whether `r` holds the events of `s` ordered by tick, events at one tick in
/// their order in `s`: what a stable sort of `s` by tick gives.
pub open spec fn stably_sorted_from(r: Seq<Event>, s: Seq<Event>) -> bool {
    &&& tick_sorted(r)
    &&& forall|t: u32| #[trigger] at_tick(r, t) == at_tick(s, t)
}

proof fn lemma_at_tick_push(s: Seq<Event>, e: Event, t: u32)
    ensures
        at_tick(s.push(e), t) == if e.tick == t { at_tick(s, t).push(e) } else { at_tick(s, t) },
{
    assert(s.push(e).drop_last() == s);
}

/// The events at one tick of a concatenation are those of its two parts.
pub proof fn lemma_at_tick_concat(a: Seq<Event>, b: Seq<Event>, t: u32)
    ensures
        at_tick(a + b, t) == at_tick(a, t) + at_tick(b, t),
    decreases b.len(),
{
    if b.len() == 0 {
        assert(a + b == a);
        assert(at_tick(b, t) == Seq::<Event>::empty());
        assert(at_tick(a, t) + Seq::<Event>::empty() == at_tick(a, t));
    } else {
        let b0 = b.drop_last();
        lemma_at_tick_concat(a, b0, t);
        assert(a + b == (a + b0).push(b.last()));
        assert(b == b0.push(b.last()));
        lemma_at_tick_push(a + b0, b.last(), t);
        lemma_at_tick_push(b0, b.last(), t);
        if b.last().tick == t {
            assert(at_tick(a, t) + at_tick(b0, t).push(b.last()) == (at_tick(a, t) + at_tick(b0, t)).push(b.last()));
        }
    }
}

proof fn lemma_at_tick_none_below(s: Seq<Event>, t: u32)
    requires
        forall|x: int| 0 <= x < s.len() ==> (#[trigger] s[x]).tick < t,
    ensures
        at_tick(s, t) == Seq::<Event>::empty(),
    decreases s.len(),
{
    if s.len() > 0 {
        lemma_at_tick_none_below(s.drop_last(), t);
    }
}

/// Merges two tick-ordered lists into one; at equal ticks the events of `a`
/// come first.
pub fn merge_by_tick(a: &Vec<Event>, b: &Vec<Event>) -> (r: Vec<Event>)
    requires
        tick_sorted(a@),
        tick_sorted(b@),
    ensures
        tick_sorted(r@),
        forall|t: u32| #[trigger] at_tick(r@, t) == at_tick(a@, t) + at_tick(b@, t),
{
    let mut r: Vec<Event> = Vec::new();
    let mut i: usize = 0;
    let mut j: usize = 0;
    while i < a.len() || j < b.len()
        invariant
            i <= a@.len(),
            j <= b@.len(),
            tick_sorted(a@),
            tick_sorted(b@),
            tick_sorted(r@),
            forall|t: u32| #[trigger] at_tick(r@, t) == at_tick(a@.subrange(0, i as int), t) + at_tick(b@.subrange(0, j as int), t),
            r@.len() > 0 && i < a@.len() ==> r@.last().tick <= a@[i as int].tick,
            r@.len() > 0 && j < b@.len() ==> r@.last().tick <= b@[j as int].tick,
            forall|x: int| 0 <= x < j && i < a@.len() ==> (#[trigger] b@[x]).tick < a@[i as int].tick,
            forall|x: int| 0 <= x < i && j < b@.len() ==> (#[trigger] a@[x]).tick <= b@[j as int].tick,
        decreases a@.len() + b@.len() - i - j,
    {
        let ghost r0 = r@;
        let ghost a0 = a@.subrange(0, i as int);
        let ghost b0 = b@.subrange(0, j as int);
        if j >= b.len() || (i < a.len() && a[i].tick <= b[j].tick) {
            let e = a[i];
            r.push(e);
            proof {
                assert(a@.subrange(0, i + 1) == a0.push(e));
                assert forall|t: u32| #[trigger] at_tick(r@, t) == at_tick(a@.subrange(0, i + 1), t) + at_tick(b0, t) by {
                    lemma_at_tick_push(r0, e, t);
                    lemma_at_tick_push(a0, e, t);
                    if e.tick == t {
                        lemma_at_tick_none_below(b0, t);
                        assert(at_tick(b0, t) == Seq::<Event>::empty());
                        assert(at_tick(a0, t) + Seq::<Event>::empty() == at_tick(a0, t));
                        assert(at_tick(a0, t).push(e) + Seq::<Event>::empty() == at_tick(a0, t).push(e));
                    }
                }
            }
            i = i + 1;
        } else {
            let e = b[j];
            r.push(e);
            proof {
                assert(b@.subrange(0, j + 1) == b0.push(e));
                assert forall|t: u32| #[trigger] at_tick(r@, t) == at_tick(a0, t) + at_tick(b@.subrange(0, j + 1), t) by {
                    lemma_at_tick_push(r0, e, t);
                    lemma_at_tick_push(b0, e, t);
                    if e.tick == t {
                        assert((at_tick(a0, t) + at_tick(b0, t)).push(e) == at_tick(a0, t) + at_tick(b0, t).push(e));
                    }
                }
            }
            j = j + 1;
        }
    }
    proof {
        assert(a@.subrange(0, a@.len() as int) == a@);
        assert(b@.subrange(0, b@.len() as int) == b@);
    }
    r
}

} // verus!
