//! The pedal state shared with the display: where it is stored, the
//! effects it offers (one per program of the router's table, in order),
//! and when a change of it is passed on to the display.
use crate::text::{chars_of, string_of};
use std::collections::HashMap;
use vstd::prelude::*;

verus! {

broadcast use vstd::std_specs::hash::group_hash_axioms;

/// The name of the file that holds the pedal state of `pedal_dir`.
pub fn state_file_name(pedal_dir: &str) -> (r: String)
    ensures
        r@ == pedal_dir@ + seq!['/', '.', 's', 't', 'a', 't', 'e'],
{
    let mut v = chars_of(pedal_dir);
    v.push('/');
    v.push('.');
    v.push('s');
    v.push('t');
    v.push('a');
    v.push('t');
    v.push('e');
    assert(v@ =~= pedal_dir@ + seq!['/', '.', 's', 't', 'a', 't', 'e']);
    string_of(&v)
}

/// The members of `dom` below `n`, in increasing order.
pub open spec fn keys_upto(dom: Set<u8>, n: nat) -> Seq<u8>
    decreases n,
{
    if n == 0 {
        Seq::empty()
    } else {
        let k = (n - 1) as u8;
        if dom.contains(k) {
            keys_upto(dom, (n - 1) as nat).push(k)
        } else {
            keys_upto(dom, (n - 1) as nat)
        }
    }
}

/// The keys of `table` in increasing order.
pub fn sorted_keys<V>(table: &HashMap<u8, V>) -> (r: Vec<u8>)
    ensures
        r@ == keys_upto(table@.dom(), 256),
{
    let mut r: Vec<u8> = Vec::new();
    let mut k: u32 = 0;
    while k < 256
        invariant
            k <= 256,
            r@ == keys_upto(table@.dom(), k as nat),
        decreases 256 - k,
    {
        let key = k as u8;
        if table.contains_key(&key) {
            r.push(key);
        }
        k = k + 1;
        assert((k - 1) as u8 == key);
    }
    r
}

proof fn lemma_keys_upto(dom: Set<u8>, n: nat)
    requires
        n <= 256,
    ensures
        forall|i: int, j: int|
            0 <= i < j < keys_upto(dom, n).len() ==> keys_upto(dom, n)[i] < keys_upto(dom, n)[j],
        forall|i: int| 0 <= i < keys_upto(dom, n).len() ==> keys_upto(dom, n)[i] < n,
        forall|k: u8| #[trigger] keys_upto(dom, n).contains(k) <==> (dom.contains(k) && k < n),
    decreases n,
{
    if n > 0 {
        let m = (n - 1) as nat;
        lemma_keys_upto(dom, m);
        let prev = keys_upto(dom, m);
        let k = m as u8;
        assert(k as nat == m);
        if dom.contains(k) {
            assert forall|x: u8| #[trigger] prev.push(k).contains(x) <==> (prev.contains(x) || x
                == k) by {
                if prev.push(k).contains(x) {
                    let i = choose|i: int| 0 <= i < prev.push(k).len() && prev.push(k)[i] == x;
                    if i < prev.len() {
                        assert(prev[i] == x);
                    }
                }
                if prev.contains(x) {
                    let i = choose|i: int| 0 <= i < prev.len() && prev[i] == x;
                    assert(prev.push(k)[i] == x);
                }
                if x == k {
                    assert(prev.push(k)[prev.len() as int] == x);
                }
            }
        }
        assert forall|x: u8| #[trigger]
            keys_upto(dom, n).contains(x) <==> (dom.contains(x) && x < n) by {
            assert(prev.contains(x) <==> (dom.contains(x) && x < m));
        }
    }
}

/// The effects that the pedal state offers are the programs of the
/// table, each once, in strictly increasing order.
pub proof fn law_sorted_keys(dom: Set<u8>)
    ensures
        forall|i: int, j: int|
            0 <= i < j < keys_upto(dom, 256).len() ==> keys_upto(dom, 256)[i] < keys_upto(
                dom,
                256,
            )[j],
        forall|k: u8| #[trigger] keys_upto(dom, 256).contains(k) <==> dom.contains(k),
{
    lemma_keys_upto(dom, 256);
}

/// What the watcher of the pedal state file last passed on to the display:
/// the selected effect.
pub struct SelectionMonitor {
    pub selected: Option<u8>,
}

impl SelectionMonitor {
    /// A watcher that starts from the selected effect `selected`.
    pub fn new(selected: Option<u8>) -> (r: Self)
        ensures
            r.selected == selected,
    {
        SelectionMonitor { selected }
    }

    /// A new pedal state was read with selected effect `selected`: it is
    /// passed on (the result) only when the selected effect changed.
    pub fn observe(&mut self, selected: Option<u8>) -> (changed: bool)
        ensures
            changed == (old(self).selected != selected),
            final(self).selected == selected,
    {
        let changed = match (self.selected, selected) {
            (Some(a), Some(b)) => a != b,
            (None, None) => false,
            _ => true,
        };
        if changed {
            self.selected = selected;
        }
        changed
    }
}

/// Passing on the selections `reads` (one per successful read of the
/// state file) from a watcher that last passed on `last`: the selection
/// it holds afterwards, and the selections it passed on, in order.
pub open spec fn monitor_scan(last: Option<u8>, reads: Seq<Option<u8>>) -> (Option<u8>, Seq<
    Option<u8>,
>)
    decreases reads.len(),
{
    if reads.len() == 0 {
        (last, Seq::empty())
    } else {
        let (held, sent) = monitor_scan(last, reads.drop_last());
        if reads.last() != held {
            (reads.last(), sent.push(reads.last()))
        } else {
            (held, sent)
        }
    }
}

impl SelectionMonitor {
    /// Observe each selection of `reads` in turn; the selections passed on,
    /// in order.
    pub fn observe_all(&mut self, reads: &Vec<Option<u8>>) -> (sent: Vec<Option<u8>>)
        ensures
            (final(self).selected, sent@) == monitor_scan(old(self).selected, reads@),
    {
        let ghost start = self.selected;
        let mut sent: Vec<Option<u8>> = Vec::new();
        let mut i: usize = 0;
        assert(reads@.take(0) =~= Seq::<Option<u8>>::empty());
        while i < reads.len()
            invariant
                i <= reads.len(),
                (self.selected, sent@) == monitor_scan(start, reads@.take(i as int)),
            decreases reads.len() - i,
        {
            assert(reads@.take(i + 1).drop_last() =~= reads@.take(i as int));
            assert(reads@.take(i + 1).last() == reads@[i as int]);
            if self.observe(reads[i]) {
                sent.push(reads[i]);
            }
            i = i + 1;
        }
        assert(reads@.take(reads.len() as int) =~= reads@);
        sent
    }
}

/// The watcher over a whole sequence of reads: it passes on exactly the
/// selections that differ from the last one passed on (the first from the
/// starting one), and after each read it holds that read's selection.
pub proof fn law_monitor_passes_changes(last: Option<u8>, reads: Seq<Option<u8>>)
    ensures
        ({
            let (held, sent) = monitor_scan(last, reads);
            &&& sent.len() > 0 ==> sent[0] != last
            &&& forall|i: int| 0 < i < sent.len() ==> #[trigger] sent[i] != sent[i - 1]
            &&& held == if sent.len() == 0 {
                last
            } else {
                sent.last()
            }
            &&& reads.len() > 0 ==> held == reads.last()
            &&& forall|x: Option<u8>| sent.contains(x) ==> reads.contains(x)
        }),
    decreases reads.len(),
{
    if reads.len() > 0 {
        let pre = reads.drop_last();
        law_monitor_passes_changes(last, pre);
        let (held, sent) = monitor_scan(last, pre);
        assert forall|x: Option<u8>| pre.contains(x) implies reads.contains(x) by {
            let k = choose|k: int| 0 <= k < pre.len() && pre[k] == x;
            assert(reads[k] == x);
        }
        if reads.last() != held {
            let s2 = sent.push(reads.last());
            assert forall|x: Option<u8>| s2.contains(x) implies reads.contains(x) by {
                let k = choose|k: int| 0 <= k < s2.len() && s2[k] == x;
                if k < sent.len() {
                    assert(sent[k] == x);
                    assert(sent.contains(x));
                } else {
                    assert(reads[reads.len() - 1] == x);
                }
            }
            assert forall|i: int| 0 < i < s2.len() implies #[trigger] s2[i] != s2[i - 1] by {
                if i < sent.len() {
                    assert(s2[i] == sent[i] && s2[i - 1] == sent[i - 1]);
                }
            }
        }
    }
}

} // verus!
