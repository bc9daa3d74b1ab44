//! The recent messages shown under the map: repeats of a message are grouped, newest first,
//! and older groups fade.
use crate::text::{decimal, decimal_string};
use vstd::prelude::*;

verus! {

/// The largest number of groups of messages shown.
pub open spec fn max_groups() -> nat {
    4
}

/// `gs` after looking at one more message `m`, going from the newest message back: nothing
/// changes once enough groups are shown; a repeat of the last group's text counts once more;
/// any other message opens a new group.
pub open spec fn add_to_groups(gs: Seq<(nat, Seq<char>)>, m: Seq<char>) -> Seq<(nat, Seq<char>)> {
    if gs.len() >= max_groups() {
        gs
    } else if gs.len() > 0 && gs.last().1 == m {
        gs.update(gs.len() - 1, (gs.last().0 + 1, m))
    } else {
        gs.push((1nat, m))
    }
}

/// The groups made from the `k` newest messages of `ms`, newest first.
pub open spec fn groups_of(ms: Seq<Seq<char>>, k: int) -> Seq<(nat, Seq<char>)>
    decreases k,
{
    if k <= 0 || k > ms.len() {
        Seq::empty()
    } else {
        add_to_groups(groups_of(ms, k - 1), ms[ms.len() - k])
    }
}

/// The text shown for a group: the message, followed by the number of times it came when more
/// than once.
pub open spec fn group_text(g: (nat, Seq<char>)) -> Seq<char> {
    if g.0 == 1 {
        g.1
    } else {
        g.1 + " (x"@ + decimal(g.0) + ")"@
    }
}

/// A line of the message log: its text, the opacity it is drawn with, and its row, counted
/// from the top of the log.
#[derive(Clone, Debug, PartialEq, Eq)]
pub struct MessageLine {
    pub text: String,
    pub alpha: u8,
    pub row: u32,
}

/// The counts `counts` and texts `texts` hold the groups `gs`, in order.
pub open spec fn groups_held(counts: Seq<usize>, texts: Seq<String>, gs: Seq<(nat, Seq<char>)>) -> bool {
    &&& counts.len() == gs.len()
    &&& texts.len() == gs.len()
    &&& forall|i: int| 0 <= i < gs.len() ==> counts[i] == gs[i].0 && (#[trigger] texts[i])@ == gs[i].1
}

proof fn lemma_groups_bounds(ms: Seq<Seq<char>>, k: int)
    requires
        0 <= k <= ms.len(),
    ensures
        groups_of(ms, k).len() <= max_groups(),
        forall|i: int| 0 <= i < groups_of(ms, k).len() ==> 1 <= #[trigger] groups_of(ms, k)[i].0 <= k,
    decreases k,
{
    if k > 0 {
        lemma_groups_bounds(ms, k - 1);
    }
}

/// The lines of the message log for the messages `messages`, oldest first: going back from the
/// newest, repeats of a message are grouped, until four groups are found; the newest group is
/// drawn on the bottom row opaque, and each older one a row higher and 50 less opaque.
pub fn message_lines(messages: &Vec<String>) -> (r: Vec<MessageLine>)
    ensures
        ({
            let gs = groups_of(messages@.map_values(|m: String| m@), messages@.len() as int);
            &&& r@.len() == gs.len()
            &&& forall|i: int|
                0 <= i < r@.len() ==> {
                    &&& (#[trigger] r@[i]).text@ == group_text(gs[i])
                    &&& r@[i].alpha == 255 - 50 * i
                    &&& r@[i].row == 3 - i
                }
        }),
{
    let ghost ms = messages@.map_values(|m: String| m@);
    let n = messages.len();
    let mut counts: Vec<usize> = Vec::new();
    let mut texts: Vec<String> = Vec::new();
    let mut k: usize = 0;
    while k < n
        invariant
            n == messages@.len(),
            ms == messages@.map_values(|m: String| m@),
            k <= n,
            groups_held(counts@, texts@, groups_of(ms, k as int)),
        decreases n - k,
    {
        proof {
            lemma_groups_bounds(ms, k as int);
        }
        let m = &messages[n - 1 - k];
        assert(m@ == ms[ms.len() - (k + 1)]);
        let ghost g0 = groups_of(ms, k as int);
        let ghost c0 = counts@;
        let ghost t0 = texts@;
        assert(groups_of(ms, k + 1) == add_to_groups(g0, m@));
        if counts.len() >= 4 {
            assert(groups_of(ms, k + 1) =~= g0);
            assert forall|i: int|
                #![trigger counts@[i]]
                #![trigger texts@[i]]
                0 <= i < counts@.len() implies counts@[i] == groups_of(ms, k + 1)[i].0 && texts@[i]@ == groups_of(
                    ms,
                    k + 1,
                )[i].1 by {
                assert(t0[i]@ == g0[i].1);
            }
            k = k + 1;
            assert(groups_held(counts@, texts@, groups_of(ms, k as int)));
            continue;
        }
        let len = counts.len();
        if len > 0 && texts[len - 1] == *m {
            let c = counts[len - 1];
            counts.set(len - 1, c + 1);
            assert(groups_of(ms, k + 1) =~= g0.update(len - 1, (g0[len - 1].0 + 1, m@)));
            assert forall|i: int|
                #![trigger counts@[i]]
                #![trigger texts@[i]]
                0 <= i < counts@.len() implies counts@[i] == groups_of(ms, k + 1)[i].0 && texts@[i]@ == groups_of(
                    ms,
                    k + 1,
                )[i].1 by {
                assert(t0[i]@ == g0[i].1);
                if i < len - 1 {
                    assert(counts@[i] == c0[i]);
                    assert(t0[i]@ == g0[i].1);
                } else {
                    assert(t0[i]@ == g0[i].1);
                }
            }
            assert(groups_held(counts@, texts@, groups_of(ms, k + 1)));
        } else {
            counts.push(1);
            texts.push(m.clone());
            assert(groups_of(ms, k + 1) =~= g0.push((1nat, m@)));
            assert forall|i: int|
                #![trigger counts@[i]]
                #![trigger texts@[i]]
                0 <= i < counts@.len() implies counts@[i] == groups_of(ms, k + 1)[i].0 && texts@[i]@ == groups_of(
                    ms,
                    k + 1,
                )[i].1 by {
                if i < len {
                    assert(counts@[i] == c0[i]);
                    assert(texts@[i] == t0[i]);
                    assert(t0[i]@ == g0[i].1);
                }
            }
            assert(groups_held(counts@, texts@, groups_of(ms, k + 1)));
        }
        k = k + 1;
        assert(groups_held(counts@, texts@, groups_of(ms, k as int)));
    }
    proof {
        lemma_groups_bounds(ms, n as int);
        assert(k == n);
    }
    let mut r: Vec<MessageLine> = Vec::new();
    let mut i: usize = 0;
    while i < counts.len()
        invariant
            counts@.len() <= 4,
            groups_held(counts@, texts@, groups_of(ms, n as int)),
            i <= counts@.len(),
            r@.len() == i,
            forall|j: int|
                0 <= j < i ==> {
                    &&& (#[trigger] r@[j]).text@ == group_text(groups_of(ms, n as int)[j])
                    &&& r@[j].alpha == 255 - 50 * j
                    &&& r@[j].row == 3 - j
                },
        decreases counts@.len() - i,
    {
        let count = counts[i];
        let text = if count == 1 {
            texts[i].clone()
        } else {
            let number = decimal_string(count as u64);
            let t = texts[i].clone().concat(" (x");
            let t = t.concat(number.as_str());
            let t = t.concat(")");
            proof {
                reveal_strlit(" (x");
                reveal_strlit(")");
            }
            t
        };
        let alpha: u8 = 255 - (i as u8) * 50;
        let row: u32 = 3 - i as u32;
        r.push(MessageLine { text, alpha, row });
        i = i + 1;
    }
    r
}


/// The messages that the groups `gs` stand for, newest first: each group's text as many times
/// as its count.
pub open spec fn spelled_out(gs: Seq<(nat, Seq<char>)>) -> Seq<Seq<char>>
    decreases gs.len(),
{
    if gs.len() == 0 {
        Seq::empty()
    } else {
        spelled_out(gs.drop_last()) + Seq::new(gs.last().0, |i: int| gs.last().1)
    }
}

/// The messages of `ms`, newest first.
pub open spec fn newest_first(ms: Seq<Seq<char>>) -> Seq<Seq<char>> {
    Seq::new(ms.len(), |i: int| ms[ms.len() - 1 - i])
}

proof fn lemma_spelled_out_grows(gs: Seq<(nat, Seq<char>)>, m: Seq<char>)
    ensures
        gs.len() > 0 && gs.last().1 == m ==> spelled_out(gs.update(gs.len() - 1, (gs.last().0 + 1, m)))
            =~= spelled_out(gs).push(m),
        spelled_out(gs.push((1nat, m))) =~= spelled_out(gs).push(m),
{
    let g2 = gs.push((1nat, m));
    assert(g2.drop_last() =~= gs);
    assert(Seq::new(1nat, |i: int| m) =~= seq![m]);
    if gs.len() > 0 && gs.last().1 == m {
        let g1 = gs.update(gs.len() - 1, (gs.last().0 + 1, m));
        assert(g1.drop_last() =~= gs.drop_last());
        assert(Seq::new(gs.last().0 + 1, |i: int| m) =~= Seq::new(gs.last().0, |i: int| gs.last().1).push(m));
    }
}

/// The groups made from the `k` newest messages are runs of equal messages read from the newest
/// back: spelled out in order they are the newest messages, each group counts at least one,
/// two neighbouring groups never share a text (so a group ends exactly where a different
/// message comes), and messages are left out only once the log is full.
pub proof fn law_groups_are_runs(ms: Seq<Seq<char>>, k: int)
    requires
        0 <= k <= ms.len(),
    ensures
        ({
            let gs = groups_of(ms, k);
            let out = spelled_out(gs);
            &&& out.len() <= k
            &&& out == newest_first(ms).take(out.len() as int)
            &&& out.len() < k ==> gs.len() == max_groups()
            &&& gs.len() <= max_groups()
            &&& forall|i: int| 0 <= i < gs.len() ==> #[trigger] gs[i].0 >= 1
            &&& forall|i: int| 0 < i < gs.len() ==> gs[i - 1].1 != #[trigger] gs[i].1
        }),
    decreases k,
{
    if k > 0 {
        law_groups_are_runs(ms, k - 1);
        let g0 = groups_of(ms, k - 1);
        let m = ms[ms.len() - k];
        lemma_spelled_out_grows(g0, m);
        let nf = newest_first(ms);
        assert(nf[k - 1] == m);
        if g0.len() < max_groups() {
            assert(nf.take(k) =~= nf.take(k - 1).push(m));
        }
        let gs = groups_of(ms, k);
        if g0.len() < max_groups() && !(g0.len() > 0 && g0.last().1 == m) {
            assert(gs == g0.push((1nat, m)));
            assert forall|i: int| 0 < i < gs.len() implies gs[i - 1].1 != #[trigger] gs[i].1 by {
                if i < g0.len() {
                    assert(gs[i] == g0[i] && gs[i - 1] == g0[i - 1]);
                }
            }
        }
        if g0.len() < max_groups() && g0.len() > 0 && g0.last().1 == m {
            let n = g0.len() - 1;
            assert(gs == g0.update(n, (g0.last().0 + 1, m)));
            assert forall|i: int| 0 < i < gs.len() implies gs[i - 1].1 != #[trigger] gs[i].1 by {
                assert(gs[i].1 == g0[i].1);
                assert(gs[i - 1].1 == g0[i - 1].1);
            }
        }
    }
}

} // verus!
