//! What the connection manager and the address listing report, read from
//! their text: the names of tunnels and networks, what is active, and the
//! addresses. A line that does not fit is passed over.

use vstd::prelude::*;
use vstd::string::*;
use crate::fields::{
    lemma_pieces_exist, lines, lines_of, pieces, split, words, words_of, Separator,
};
use crate::graph::InterfaceAddress;
use crate::names::{strictly_ordered, NameMap};
use crate::text::{contains, has_substring, names_of, same_name, starts_with};

verus! {

/// The text of a string that may be there.
pub open spec fn shown(text: Option<String>) -> Option<Seq<char>> {
    match text {
        Some(s) => Some(s@),
        None => None,
    }
}

/// What a list of names is read from.
#[derive(Clone, Copy, PartialEq, Eq, Debug, Structural)]
pub enum Listing {
    /// The connections with their types; the tunnels are wanted.
    Tunnels,
    /// The networks in reach.
    Networks,
    /// The active connections with their states.
    Active,
}

/// The piece of a line before its first `sep`.
pub open spec fn first_field(line: Seq<char>, sep: char) -> Seq<char> {
    pieces(line, Separator::Is(sep))[0]
}

/// The piece of a line between its first and its second `sep`; empty if the
/// line holds no `sep`.
pub open spec fn second_field(line: Seq<char>, sep: char) -> Seq<char> {
    let fields = pieces(line, Separator::Is(sep));
    if fields.len() > 1 {
        fields[1]
    } else {
        Seq::empty()
    }
}

/// The name that a line of a listing gives, if it gives one. Of the
/// connections, those of type `vpn` or `wireguard` count, by the field
/// before the first colon. A network is a whole line that is neither empty
/// nor `--`. An active connection is the field before the first colon,
/// unless that is empty.
pub open spec fn named_by(line: Seq<char>, listing: Listing) -> Option<Seq<char>> {
    match listing {
        Listing::Tunnels => if has_substring(line, ":vpn"@) || has_substring(line, ":wireguard"@) {
            Some(first_field(line, ':'))
        } else {
            None
        },
        Listing::Networks => if line.len() > 0 && line != "--"@ {
            Some(line)
        } else {
            None
        },
        Listing::Active => if first_field(line, ':').len() > 0 {
            Some(first_field(line, ':'))
        } else {
            None
        },
    }
}

/// The names that the lines of a listing give, in the order of the lines.
pub open spec fn listed(text: Seq<char>, listing: Listing) -> Seq<Seq<char>> {
    lines_of(text).filter_map(|line: Seq<char>| named_by(line, listing))
}

/// The piece of a line before its first `sep`.
pub fn leading_field(line: &str, sep: char) -> (field: String)
    ensures
        field@ == first_field(line@, sep),
{
    proof {
        lemma_pieces_exist(line@, Separator::Is(sep));
    }
    let fields = split(line, Separator::Is(sep));
    assert(names_of(fields@)[0] == fields@[0]@);
    fields[0].clone()
}

/// The name that a line of a listing gives, if it gives one.
pub fn name_in(line: &str, listing: Listing) -> (name: Option<String>)
    ensures
        shown(name) == named_by(line@, listing),
{
    match listing {
        Listing::Tunnels => {
            if contains(line, ":vpn") || contains(line, ":wireguard") {
                Some(leading_field(line, ':'))
            } else {
                None
            }
        },
        Listing::Networks => {
            if line.unicode_len() > 0 && !same_name(line, "--") {
                Some(String::from_str(line))
            } else {
                None
            }
        },
        Listing::Active => {
            let field = leading_field(line, ':');
            if field.as_str().unicode_len() > 0 {
                Some(field)
            } else {
                None
            }
        },
    }
}

/// The names that the lines of a listing give, in the order of the lines.
pub fn names_in(text: &str, listing: Listing) -> (found: Vec<String>)
    ensures
        names_of(found@) == listed(text@, listing),
{
    let all = lines(text);
    let ghost read = |line: Seq<char>| named_by(line, listing);
    let mut found: Vec<String> = Vec::new();
    let mut i: usize = 0;
    assert(names_of(found@) =~= names_of(all@).take(0).filter_map(read));
    while i < all.len()
        invariant
            i <= all.len(),
            names_of(all@) == lines_of(text@),
            read == |line: Seq<char>| named_by(line, listing),
            names_of(found@) == names_of(all@).take(i as int).filter_map(read),
        decreases all.len() - i,
    {
        let ghost before = names_of(found@);
        proof {
            names_of(all@).lemma_filter_map_take_succ(read, i as int);
            assert(names_of(all@)[i as int] == all@[i as int]@);
        }
        match name_in(all[i].as_str(), listing) {
            Some(name) => {
                found.push(name);
                assert(names_of(found@) =~= before + seq![name@]);
            },
            None => {},
        }
        i += 1;
    }
    assert(names_of(all@).take(i as int) =~= names_of(all@));
    found
}

/// The names of a list in order, each once.
pub fn sorted_names(list: &Vec<String>) -> (sorted: Vec<String>)
    ensures
        strictly_ordered(names_of(sorted@)),
        forall|n: Seq<char>| names_of(sorted@).contains(n) <==> names_of(list@).contains(n),
{
    let mut table: NameMap<bool> = NameMap::new();
    let mut i: usize = 0;
    while i < list.len()
        invariant
            i <= list.len(),
            table.wf(),
            forall|n: Seq<char>| #[trigger]
                table@.contains_key(n) <==> names_of(list@).take(i as int).contains(n),
        decreases list.len() - i,
    {
        let ghost seen = names_of(list@).take(i as int);
        table.insert(list[i].clone(), true);
        proof {
            let next = names_of(list@).take(i + 1);
            assert(next =~= seen.push(list@[i as int]@));
            assert forall|n: Seq<char>| #[trigger]
                table@.contains_key(n) <==> next.contains(n) by {
                if seen.contains(n) {
                    let k = seen.index_of(n);
                    assert(next[k] == n);
                }
                if n == list@[i as int]@ {
                    assert(next[i as int] == n);
                }
                if next.contains(n) {
                    let k = next.index_of(n);
                    if k < i {
                        assert(seen[k] == n);
                    }
                }
            }
        }
        i += 1;
    }
    assert(names_of(list@).take(i as int) =~= names_of(list@));
    let mut sorted: Vec<String> = Vec::new();
    let mut k: usize = 0;
    assert(names_of(sorted@) =~= table.names().take(0));
    while k < table.len()
        invariant
            k <= table.names().len(),
            table.wf(),
            forall|n: Seq<char>| #[trigger]
                table@.contains_key(n) <==> names_of(list@).contains(n),
            names_of(sorted@) == table.names().take(k as int),
        decreases table.names().len() - k,
    {
        let ghost before = names_of(sorted@);
        sorted.push(table.name_at(k).clone());
        assert(names_of(sorted@) =~= before.push(table.names()[k as int]));
        assert(table.names().take(k + 1) =~= before.push(table.names()[k as int]));
        k += 1;
    }
    proof {
        assert(table.names().take(k as int) =~= table.names());
        table.lemma_positions();
        assert forall|n: Seq<char>| names_of(sorted@).contains(n) <==> names_of(list@).contains(
            n,
        ) by {
            assert(table@.contains_key(n) <==> names_of(list@).contains(n));
        }
    }
    sorted
}

/// The names of the tunnels among the listed connections, in order, each
/// once.
pub fn tunnel_names(text: &str) -> (found: Vec<String>)
    ensures
        strictly_ordered(names_of(found@)),
        forall|n: Seq<char>|
            names_of(found@).contains(n) <==> listed(text@, Listing::Tunnels).contains(n),
{
    sorted_names(&names_in(text, Listing::Tunnels))
}

/// The names of the listed networks, in order, each once.
pub fn network_names(text: &str) -> (found: Vec<String>)
    ensures
        strictly_ordered(names_of(found@)),
        forall|n: Seq<char>|
            names_of(found@).contains(n) <==> listed(text@, Listing::Networks).contains(n),
{
    sorted_names(&names_in(text, Listing::Networks))
}

/// The names of the active connections, as listed.
pub fn active_names(text: &str) -> (found: Vec<String>)
    ensures
        names_of(found@) == listed(text@, Listing::Active),
{
    names_in(text, Listing::Active)
}

/// The network of the first line that begins with `yes`: its second field.
pub open spec fn associated(lines: Seq<Seq<char>>) -> Option<Seq<char>>
    decreases lines.len(),
{
    if lines.len() == 0 {
        None
    } else if "yes"@.is_prefix_of(lines[0]) {
        Some(second_field(lines[0], ':'))
    } else {
        associated(lines.drop_first())
    }
}

/// The associated network among the listed ones, if one is marked so.
pub fn associated_network(text: &str) -> (ssid: Option<String>)
    ensures
        shown(ssid) == associated(lines_of(text@)),
{
    let all = lines(text);
    let mut i: usize = 0;
    assert(names_of(all@).skip(0) =~= names_of(all@));
    while i < all.len()
        invariant
            i <= all.len(),
            names_of(all@) == lines_of(text@),
            associated(lines_of(text@)) == associated(names_of(all@).skip(i as int)),
        decreases all.len() - i,
    {
        let line = all[i].as_str();
        proof {
            assert(names_of(all@).skip(i as int)[0] == line@);
            assert(names_of(all@).skip(i as int).drop_first() =~= names_of(all@).skip(i + 1));
        }
        if starts_with(line, "yes") {
            let fields = split(line, Separator::Is(':'));
            if fields.len() > 1 {
                assert(names_of(fields@)[1] == fields@[1]@);
                return Some(fields[1].clone());
            } else {
                return Some(String::new());
            }
        }
        i += 1;
    }
    None
}

/// The address that a line gives: its second word is the interface, its
/// fourth the address with the length of the prefix after a slash. The
/// loopback device is left out.
pub open spec fn address_in(line: Seq<char>) -> Option<(Seq<char>, Seq<char>)> {
    let found = words_of(line);
    if found.len() >= 4 && found[1] != "lo"@ {
        Some((found[1], first_field(found[3], '/')))
    } else {
        None
    }
}

/// The addresses that the lines give, in the order of the lines.
pub open spec fn addresses_in(text: Seq<char>) -> Seq<(Seq<char>, Seq<char>)> {
    lines_of(text).filter_map(|line: Seq<char>| address_in(line))
}

/// Interfaces and addresses as plain text.
pub open spec fn address_pairs(list: Seq<InterfaceAddress>) -> Seq<(Seq<char>, Seq<char>)> {
    Seq::new(list.len(), |i: int| (list[i].name@, list[i].address@))
}

/// The addresses of the interfaces.
pub fn addresses(text: &str) -> (found: Vec<InterfaceAddress>)
    ensures
        address_pairs(found@) == addresses_in(text@),
{
    let all = lines(text);
    let ghost read = |line: Seq<char>| address_in(line);
    let mut found: Vec<InterfaceAddress> = Vec::new();
    let mut i: usize = 0;
    assert(address_pairs(found@) =~= names_of(all@).take(0).filter_map(read));
    while i < all.len()
        invariant
            i <= all.len(),
            names_of(all@) == lines_of(text@),
            read == |line: Seq<char>| address_in(line),
            address_pairs(found@) == names_of(all@).take(i as int).filter_map(read),
        decreases all.len() - i,
    {
        let ghost before = address_pairs(found@);
        proof {
            names_of(all@).lemma_filter_map_take_succ(read, i as int);
            assert(names_of(all@)[i as int] == all@[i as int]@);
        }
        let parts = words(all[i].as_str());
        if parts.len() >= 4 {
            assert(names_of(parts@)[1] == parts@[1]@);
            assert(names_of(parts@)[3] == parts@[3]@);
            if !same_name(parts[1].as_str(), "lo") {
                let entry = InterfaceAddress {
                    name: parts[1].clone(),
                    address: leading_field(parts[3].as_str(), '/'),
                };
                found.push(entry);
                assert(address_pairs(found@) =~= before + seq![(entry.name@, entry.address@)]);
            }
        }
        i += 1;
    }
    assert(names_of(all@).take(i as int) =~= names_of(all@));
    found
}

} // verus!
