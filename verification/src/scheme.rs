//! Schemes: sixteen named colors, in their order.
use indexmap::IndexMap;
use vstd::prelude::*;

use crate::color::Argb;

verus! {

/// `indexmap::IndexMap`, of which nothing is seen but what the functions below say.
#[verifier::external_type_specification]
#[verifier::external_body]
#[verifier::reject_recursive_types(K)]
#[verifier::reject_recursive_types(V)]
#[verifier::reject_recursive_types(S)]
pub struct ExIndexMap<K, V, S>(indexmap::IndexMap<K, V, S>);

/// What a map holds: its keys with their values, in the order in which it gives them out.
pub uninterp spec fn entries(map: IndexMap<String, Argb>) -> Seq<(Seq<char>, Argb)>;

/// Calls `IndexMap::new`.
///
/// Claimed is that the map holds nothing.
#[verifier::external_body]
fn empty_map() -> (map: IndexMap<String, Argb>)
    ensures
        entries(map) == Seq::<(Seq<char>, Argb)>::empty(),
{
    IndexMap::new()
}

/// The map holds something under the key.
pub open spec fn holds(map: Seq<(Seq<char>, Argb)>, key: Seq<char>) -> bool {
    exists|i: int| 0 <= i < map.len() && (#[trigger] map[i]).0 == key
}

/// Calls `IndexMap::insert`.
///
/// Claimed is that a key which the map does not hold is appended with its value, and `None` is
/// given back; and that a key which it holds keeps its place, and its old value is given back.
#[verifier::external_body]
fn insert(map: &mut IndexMap<String, Argb>, key: String, value: Argb) -> (prior: Option<Argb>)
    ensures
        !holds(entries(*old(map)), key@) ==> {
            &&& entries(*final(map)) == entries(*old(map)).push((key@, value))
            &&& prior is None
        },
        holds(entries(*old(map)), key@) ==> exists|i: int|
            {
                &&& 0 <= i < entries(*old(map)).len()
                &&& (#[trigger] entries(*old(map))[i]).0 == key@
                &&& entries(*final(map)) == entries(*old(map)).update(i, (key@, value))
                &&& prior == Some(entries(*old(map))[i].1)
            },
{
    map.insert(key, value)
}

/// The names of the colors: the gray ramp first, then the accents.
pub open spec fn names() -> Seq<Seq<char>> {
    seq![
        "base00"@,
        "base01"@,
        "base02"@,
        "base03"@,
        "base04"@,
        "base05"@,
        "base06"@,
        "base07"@,
        "base08"@,
        "base09"@,
        "base0a"@,
        "base0b"@,
        "base0c"@,
        "base0d"@,
        "base0e"@,
        "base0f"@,
    ]
}

/// The name of a color.
pub fn name(i: usize) -> (r: String)
    requires
        i < 16,
    ensures
        r@ == names()[i as int],
{
    let text: &str = match i {
        0 => "base00",
        1 => "base01",
        2 => "base02",
        3 => "base03",
        4 => "base04",
        5 => "base05",
        6 => "base06",
        7 => "base07",
        8 => "base08",
        9 => "base09",
        10 => "base0a",
        11 => "base0b",
        12 => "base0c",
        13 => "base0d",
        14 => "base0e",
        _ => "base0f",
    };
    text.to_string()
}

/// The last two characters of a name.
pub open spec fn ending_of(i: int) -> (char, char) {
    (
        '0',
        seq!['0', '1', '2', '3', '4', '5', '6', '7', '8', '9', 'a', 'b', 'c', 'd', 'e', 'f'][i],
    )
}

/// No name stands for two colors.
pub proof fn names_differ(i: int, j: int)
    requires
        0 <= i < j < 16,
    ensures
        names()[i] != names()[j],
{
    reveal_strlit("base00");
    reveal_strlit("base01");
    reveal_strlit("base02");
    reveal_strlit("base03");
    reveal_strlit("base04");
    reveal_strlit("base05");
    reveal_strlit("base06");
    reveal_strlit("base07");
    reveal_strlit("base08");
    reveal_strlit("base09");
    reveal_strlit("base0a");
    reveal_strlit("base0b");
    reveal_strlit("base0c");
    reveal_strlit("base0d");
    reveal_strlit("base0e");
    reveal_strlit("base0f");
    assert(names()[i][4] == ending_of(i).0 && names()[i][5] == ending_of(i).1);
    assert(names()[j][4] == ending_of(j).0 && names()[j][5] == ending_of(j).1);
}

/// What a scheme with the given grays and accents holds.
pub open spec fn scheme_of(grays: Seq<Argb>, accents: Seq<Argb>) -> Seq<(Seq<char>, Argb)> {
    Seq::new(
        16,
        |i: int|
            (
                names()[i],
                if i < 8 {
                    grays[i]
                } else {
                    accents[i - 8]
                },
            ),
    )
}

/// The scheme with the given grays and accents.
pub fn assemble(grays: &Vec<Argb>, accents: &Vec<Argb>) -> (map: IndexMap<String, Argb>)
    requires
        grays@.len() == 8,
        accents@.len() == 8,
    ensures
        entries(map) == scheme_of(grays@, accents@),
{
    let ghost full = scheme_of(grays@, accents@);
    let mut map: IndexMap<String, Argb> = empty_map();
    let mut i: usize = 0;
    assert(entries(map) =~= full.take(0));
    while i < 16
        invariant
            i <= 16,
            grays@.len() == 8,
            accents@.len() == 8,
            full == scheme_of(grays@, accents@),
            entries(map) == full.take(i as int),
        decreases 16 - i,
    {
        let color: Argb = if i < 8 {
            grays[i]
        } else {
            accents[i - 8]
        };
        proof {
            assert(full[i as int] == (names()[i as int], color));
            if holds(entries(map), names()[i as int]) {
                let j = choose|j: int|
                    0 <= j < entries(map).len() && (#[trigger] entries(map)[j]).0
                        == names()[i as int];
                assert(entries(map)[j] == full[j]);
                names_differ(j, i as int);
            }
            assert(full.take(i as int).push(full[i as int]) =~= full.take(i + 1));
        }
        insert(&mut map, name(i), color);
        i = i + 1;
    }
    assert(full.take(16) =~= full);
    map
}

/// The dark and the light scheme.
pub struct Schemes {
    pub dark: IndexMap<String, Argb>,
    pub light: IndexMap<String, Argb>,
}

/// A scheme has sixteen colors, each under its own name, and they are the grays and the accents in
/// their order.
pub proof fn scheme_is_complete(grays: Seq<Argb>, accents: Seq<Argb>)
    ensures
        scheme_of(grays, accents).len() == 16,
        forall|i: int| 0 <= i < 16 ==> (#[trigger] scheme_of(grays, accents)[i]).0 == names()[i],
        forall|i: int, j: int|
            0 <= i < j < 16 ==> (#[trigger] scheme_of(grays, accents)[i]).0 != (
            #[trigger] scheme_of(grays, accents)[j]).0,
        forall|i: int| 0 <= i < 8 ==> (#[trigger] scheme_of(grays, accents)[i]).1 == grays[i],
        forall|i: int|
            8 <= i < 16 ==> (#[trigger] scheme_of(grays, accents)[i]).1 == accents[i - 8],
{
    assert forall|i: int, j: int| 0 <= i < j < 16 implies (#[trigger] scheme_of(
        grays,
        accents,
    )[i]).0 != (#[trigger] scheme_of(grays, accents)[j]).0 by {
        names_differ(i, j);
    }
}

} // verus!
