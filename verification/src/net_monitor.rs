//! The byte counters of the interfaces, read from the text of the kernel's
//! table: two lines of heading, then one line for each interface.
//!
//! Text that does not fit is passed over: a line that is too short gives no
//! entry, a counter that is no number counts as 0.

use vstd::prelude::*;
use vstd::string::*;
use crate::fields::{lines, lines_of, number, number_of, words, words_of};
use crate::names::NameMap;
use crate::text::names_of;

verus! {

/// The cumulative byte counters of one interface.
#[derive(Clone, Copy, PartialEq, Eq, Debug, Structural)]
pub struct NetStats {
    pub rx: u64,
    pub tx: u64,
}

/// The counters of every interface at one moment, by name.
pub type CounterSnapshot = NameMap<NetStats>;

/// The number that a word stands for; 0 if it stands for none.
pub open spec fn count_of(word: Seq<char>) -> u64 {
    match number_of(word) {
        Some(value) => value,
        None => 0,
    }
}

/// The counters that a line gives: its first word without the colons is
/// the interface, its second the bytes received, its tenth the bytes sent.
/// A line of ten words or fewer gives nothing.
pub open spec fn counter_in(line: Seq<char>) -> Option<(Seq<char>, NetStats)> {
    let found = words_of(line);
    if found.len() > 10 {
        Some(
            (
                found[0].filter(|c: char| c != ':'),
                NetStats { rx: count_of(found[1]), tx: count_of(found[9]) },
            ),
        )
    } else {
        None
    }
}

/// The counters that the lines give; of two lines for one interface the
/// later counts.
pub open spec fn counters_of(lines: Seq<Seq<char>>) -> Map<Seq<char>, NetStats>
    decreases lines.len(),
{
    if lines.len() == 0 {
        Map::empty()
    } else {
        let before = counters_of(lines.drop_last());
        match counter_in(lines.last()) {
            Some((name, stats)) => before.insert(name, stats),
            None => before,
        }
    }
}

/// The lines after the two lines of the heading.
pub open spec fn below_heading(lines: Seq<Seq<char>>) -> Seq<Seq<char>> {
    if lines.len() >= 2 {
        lines.skip(2)
    } else {
        Seq::empty()
    }
}

/// A word without the character `gone`.
pub fn without(word: &str, gone: char) -> (rest: String)
    ensures
        rest@ == word@.filter(|c: char| c != gone),
{
    let ghost keep = |c: char| c != gone;
    let n = word.unicode_len();
    let mut rest = String::new();
    let mut i: usize = 0;
    proof {
        reveal(Seq::filter);
        assert(word@.take(0) =~= Seq::<char>::empty());
    }
    while i < n
        invariant
            i <= n,
            n == word@.len(),
            keep == |c: char| c != gone,
            rest@ == word@.take(i as int).filter(keep),
        decreases n - i,
    {
        proof {
            assert(word@.take(i + 1) =~= word@.take(i as int).push(word@[i as int]));
            word@.take(i as int).lemma_filter_push(word@[i as int], keep);
        }
        if word.get_char(i) != gone {
            let one = word.substring_char(i, i + 1);
            assert(one@ =~= seq![word@[i as int]]);
            rest.append(one);
            assert(rest@ =~= word@.take(i as int).filter(keep).push(word@[i as int]));
        }
        i += 1;
    }
    assert(word@.take(i as int) =~= word@);
    rest
}

/// The number that a word stands for; 0 if it stands for none.
pub fn count(word: &str) -> (value: u64)
    ensures
        value == count_of(word@),
{
    match number(word) {
        Some(value) => value,
        None => 0,
    }
}

/// The counters of the interfaces, from the text of the kernel's table.
pub fn get_net_data(text: &str) -> (snapshot: CounterSnapshot)
    ensures
        snapshot.wf(),
        snapshot@ == counters_of(below_heading(lines_of(text@))),
{
    let all = lines(text);
    let mut snapshot: CounterSnapshot = NameMap::new();
    if all.len() < 2 {
        return snapshot;
    }
    let ghost rows = names_of(all@).skip(2);
    let mut i: usize = 2;
    assert(rows.take(0) =~= Seq::<Seq<char>>::empty());
    while i < all.len()
        invariant
            2 <= i <= all.len(),
            names_of(all@) == lines_of(text@),
            rows == names_of(all@).skip(2),
            snapshot.wf(),
            snapshot@ == counters_of(rows.take(i - 2)),
        decreases all.len() - i,
    {
        proof {
            assert(rows.take(i - 2 + 1).drop_last() =~= rows.take(i - 2));
            assert(rows.take(i - 2 + 1).last() == all@[i as int]@);
        }
        let parts = words(all[i].as_str());
        if parts.len() > 10 {
            assert(names_of(parts@)[0] == parts@[0]@);
            assert(names_of(parts@)[1] == parts@[1]@);
            assert(names_of(parts@)[9] == parts@[9]@);
            let name = without(parts[0].as_str(), ':');
            let stats = NetStats { rx: count(parts[1].as_str()), tx: count(parts[9].as_str()) };
            snapshot.insert(name, stats);
        }
        i += 1;
    }
    assert(rows.take(i - 2) =~= rows);
    snapshot
}

} // verus!
