//! Port names of a dragonfly router and their lookup in a router's channel dictionary.
//!
//! A router is handed two dictionaries from port name to `(stream index, packets per input)`,
//! one for its inputs and one for its outputs. Port `i` of a router with `radix_intra` intra
//! ports and `radix_inter` inter ports is named `intra_{i}_in` (`_out`) when `i < radix_intra`,
//! `inter_{i}_in` (`_out`) when `i < radix_intra + radix_inter` (the index counts from the first
//! port of the router, not from the first inter port), and `L_in` (`L_out`) otherwise.
//!
//! A dictionary is a `Vec` of `(port name, (stream index, packets per input))` entries; a lookup
//! answers with the first entry of the name ([`dict_lookup`]). Port names are expected to be
//! distinct, in which case each name has exactly one answer.
use vstd::prelude::*;
use crate::routing::decimal;
use crate::routing::push_decimal;
use crate::text::chars_of;
use crate::text::parse_usize;
use crate::text::law_read_decimal;

verus! {

/// The name a router gives its port `i`, on the input side or the output side.
pub open spec fn port_name(i: nat, radix_intra: nat, radix_inter: nat, output: bool) -> Seq<char> {
    let suffix = if output { seq!['_', 'o', 'u', 't'] } else { seq!['_', 'i', 'n'] };
    if i < radix_intra {
        seq!['i', 'n', 't', 'r', 'a', '_'] + decimal(i) + suffix
    } else if i < radix_intra + radix_inter {
        seq!['i', 'n', 't', 'e', 'r', '_'] + decimal(i) + suffix
    } else {
        seq!['L'] + suffix
    }
}

fn push_literal(out: &mut Vec<char>, lit: &[char])
    ensures
        final(out)@ == old(out)@ + lit@,
{
    let mut i: usize = 0;
    while i < lit.len()
        invariant
            i <= lit@.len(),
            out@ == old(out)@ + lit@.take(i as int),
        decreases lit@.len() - i,
    {
        out.push(lit[i]);
        i += 1;
        proof {
            assert(lit@.take(i as int) =~= lit@.take(i - 1).push(lit@[i - 1]));
        }
    }
    proof {
        assert(lit@.take(i as int) =~= lit@);
    }
}

/// Builds the name of port `i` (see [`port_name`]).
pub fn make_port_name(i: usize, radix_intra: usize, radix_inter: usize, output: bool) -> (name: Vec<char>)
    ensures
        name@ == port_name(i as nat, radix_intra as nat, radix_inter as nat, output),
{
    let mut name: Vec<char> = Vec::new();
    let in_range_inter = i < radix_intra || (i - radix_intra) < radix_inter;
    if i < radix_intra {
        push_literal(&mut name, &['i', 'n', 't', 'r', 'a', '_']);
        push_decimal(&mut name, i);
    } else if in_range_inter {
        push_literal(&mut name, &['i', 'n', 't', 'e', 'r', '_']);
        push_decimal(&mut name, i);
    } else {
        push_literal(&mut name, &['L']);
    }
    if output {
        push_literal(&mut name, &['_', 'o', 'u', 't']);
    } else {
        push_literal(&mut name, &['_', 'i', 'n']);
    }
    proof {
        assert(name@ =~= port_name(i as nat, radix_intra as nat, radix_inter as nat, output));
    }
    name
}

/// Whether two character vectors hold the same characters.
pub fn same_chars(a: &Vec<char>, b: &Vec<char>) -> (r: bool)
    ensures
        r == (a@ == b@),
{
    if a.len() != b.len() {
        return false;
    }
    let mut i: usize = 0;
    while i < a.len()
        invariant
            a@.len() == b@.len(),
            i <= a@.len(),
            forall|j: int| 0 <= j < i ==> a@[j] == b@[j],
        decreases a@.len() - i,
    {
        if a[i] != b[i] {
            return false;
        }
        i += 1;
    }
    proof {
        assert(a@ =~= b@);
    }
    true
}

/// A dictionary from port name to `(stream index, packets per input)` as a mathematical value.
pub open spec fn dict_view(d: Seq<(String, (usize, usize))>) -> Seq<(Seq<char>, (usize, usize))> {
    d.map_values(|e: (String, (usize, usize))| (e.0@, e.1))
}

/// The entry a dictionary holds under `name`: the first one, as a dictionary holds each name once.
pub open spec fn dict_lookup(d: Seq<(Seq<char>, (usize, usize))>, name: Seq<char>) -> Option<(usize, usize)>
    decreases d.len(),
{
    if d.len() == 0 {
        None
    } else {
        match dict_lookup(d.drop_last(), name) {
            Some(v) => Some(v),
            None => if d.last().0 == name { Some(d.last().1) } else { None },
        }
    }
}

proof fn lemma_dict_lookup_prefix(d: Seq<(Seq<char>, (usize, usize))>, name: Seq<char>, k: nat)
    requires
        k <= d.len(),
        dict_lookup(d.take(k as int), name) is Some,
    ensures
        dict_lookup(d, name) == dict_lookup(d.take(k as int), name),
    decreases d.len() - k,
{
    if k < d.len() {
        assert(d.take((k + 1) as int).drop_last() =~= d.take(k as int));
        lemma_dict_lookup_prefix(d, name, k + 1);
    } else {
        assert(d.take(k as int) =~= d);
    }
}

/// Looks `name` up in a port dictionary (see [`dict_lookup`]).
pub fn lookup_port(dict: &Vec<(String, (usize, usize))>, name: &Vec<char>) -> (r: Option<(usize, usize)>)
    ensures
        r == dict_lookup(dict_view(dict@), name@),
{
    let ghost dv = dict_view(dict@);
    let mut i: usize = 0;
    while i < dict.len()
        invariant
            i <= dict@.len(),
            dv == dict_view(dict@),
            dv.len() == dict@.len(),
            dict_lookup(dv.take(i as int), name@) is None,
        decreases dict@.len() - i,
    {
        proof {
            assert(dv.take(i + 1).drop_last() =~= dv.take(i as int));
        }
        let key = chars_of(dict[i].0.as_str());
        if same_chars(&key, name) {
            proof {
                lemma_dict_lookup_prefix(dv, name@, (i + 1) as nat);
            }
            return Some(dict[i].1);
        }
        i += 1;
    }
    proof {
        assert(dv.take(i as int) =~= dv);
    }
    None
}

/// A lookup answers with the value of the first entry under the name, and finds nothing exactly
/// when no entry has the name.
pub proof fn law_dict_lookup_first(d: Seq<(Seq<char>, (usize, usize))>, name: Seq<char>)
    ensures
        match dict_lookup(d, name) {
            Some(v) => exists|i: int| #![trigger d[i]] 0 <= i < d.len() && d[i] == (name, v)
                && forall|j: int| 0 <= j < i ==> (#[trigger] d[j]).0 != name,
            None => forall|i: int| 0 <= i < d.len() ==> (#[trigger] d[i]).0 != name,
        },
    decreases d.len(),
{
    if d.len() > 0 {
        let p = d.drop_last();
        law_dict_lookup_first(p, name);
        match dict_lookup(p, name) {
            Some(v) => {
                let i = choose|i: int| #![trigger p[i]] 0 <= i < p.len() && p[i] == (name, v)
                    && forall|j: int| 0 <= j < i ==> (#[trigger] p[j]).0 != name;
                assert(d[i] == p[i]);
                assert forall|j: int| 0 <= j < i implies (#[trigger] d[j]).0 != name by {
                    assert(d[j] == p[j]);
                }
            },
            None => {
                assert forall|i: int| 0 <= i < d.len() - 1 implies (#[trigger] d[i]).0 != name by {
                    assert(d[i] == p[i]);
                }
                if d.last().0 == name {
                    let i = d.len() - 1;
                    assert(d[i] == (name, d.last().1));
                }
            },
        }
    }
}

/// Ports are named by their index: the name of an intra or inter port `i` holds `i` in decimal
/// between its six-letter prefix and its side's suffix, so that index reads back from the name;
/// and no two ports of a router, up to the local port, share a name on one side.
pub proof fn law_port_name_index(i: nat, j: nat, radix_intra: nat, radix_inter: nat, output: bool)
    requires
        i <= usize::MAX,
        j <= usize::MAX,
        i <= radix_intra + radix_inter,
        j <= radix_intra + radix_inter,
    ensures
        i < radix_intra + radix_inter ==> {
            let n = port_name(i, radix_intra, radix_inter, output);
            let sl: int = if output { 4 } else { 3 };
            parse_usize(n.subrange(6, n.len() - sl)) == Some(i as usize)
        },
        i != j ==> port_name(i, radix_intra, radix_inter, output) != port_name(j, radix_intra, radix_inter, output),
{
    let suffix = if output { seq!['_', 'o', 'u', 't'] } else { seq!['_', 'i', 'n'] };
    let sl: int = if output { 4 } else { 3 };
    law_read_decimal(i);
    law_read_decimal(j);
    let ni = port_name(i, radix_intra, radix_inter, output);
    let nj = port_name(j, radix_intra, radix_inter, output);
    if i < radix_intra + radix_inter {
        let pre = if i < radix_intra { seq!['i', 'n', 't', 'r', 'a', '_'] } else { seq!['i', 'n', 't', 'e', 'r', '_'] };
        assert(ni == pre + decimal(i) + suffix);
        assert(ni.subrange(6, ni.len() - sl) =~= decimal(i));
    }
    if j < radix_intra + radix_inter {
        let pre = if j < radix_intra { seq!['i', 'n', 't', 'r', 'a', '_'] } else { seq!['i', 'n', 't', 'e', 'r', '_'] };
        assert(nj == pre + decimal(j) + suffix);
        assert(nj.subrange(6, nj.len() - sl) =~= decimal(j));
    }
    if i != j && ni == nj {
        if i < radix_intra + radix_inter && j < radix_intra + radix_inter {
            assert(ni.subrange(6, ni.len() - sl) == nj.subrange(6, nj.len() - sl));
        } else if i < radix_intra + radix_inter {
            assert(ni[0] == 'i');
            assert(nj[0] == 'L');
        } else {
            assert(nj[0] == 'i');
            assert(ni[0] == 'L');
        }
    }
}

/// Input ports are named with `_in` at the end and output ports with `_out`, so an input and an
/// output never share a name.
pub proof fn law_port_name_sides(i: nat, j: nat, radix_intra: nat, radix_inter: nat)
    ensures
        ({
            let n = port_name(i, radix_intra, radix_inter, false);
            n.len() >= 3 && n.subrange(n.len() - 3, n.len() as int) == seq!['_', 'i', 'n']
        }),
        ({
            let n = port_name(i, radix_intra, radix_inter, true);
            n.len() >= 4 && n.subrange(n.len() - 4, n.len() as int) == seq!['_', 'o', 'u', 't']
        }),
        port_name(i, radix_intra, radix_inter, false) != port_name(j, radix_intra, radix_inter, true),
{
    let a = port_name(i, radix_intra, radix_inter, false);
    let b = port_name(j, radix_intra, radix_inter, true);
    assert(a.subrange(a.len() - 3, a.len() as int) =~= seq!['_', 'i', 'n']);
    assert(b.subrange(b.len() - 4, b.len() as int) =~= seq!['_', 'o', 'u', 't']);
    if a == b {
        assert(a[a.len() - 1] == 'n');
        assert(b[b.len() - 1] == 't');
    }
}

} // verus!
