//! The height that a line's "Elevation" tag gives, and the grouping of lines
//! by that height. What counts as a height, and which, is told in `height`.

use crate::height::{hundredths_of, parse_hundredths};
use crate::line_object::{LineObject, LineView};
use crate::merge::line_views;
use crate::tag::{find_tag, value_of};
use vstd::prelude::*;
use vstd::string::*;

verus! {

/// The bytes of a text of plain characters.
pub open spec fn plain_bytes(v: Seq<char>) -> Seq<u8> {
    Seq::new(v.len(), |i: int| v[i] as u8)
}

/// The height in hundredths that a tag's value gives, where the value is a
/// height: see `height`.
pub open spec fn elevation_of_text(v: Seq<char>) -> Option<int> {
    if vstd::utf8::is_ascii_chars(v) {
        hundredths_of(plain_bytes(v))
    } else {
        None
    }
}

/// The height in hundredths that a line's "Elevation" tag gives.
pub open spec fn elevation(line: LineView) -> Option<int> {
    match value_of(line.tags, "Elevation"@) {
        Some(v) => elevation_of_text(v),
        None => None,
    }
}

/// Reads a height in hundredths from a tag's value.
pub fn parse_elevation(value: &str) -> (r: Option<i64>)
    ensures
        match r {
            Some(h) => elevation_of_text(value@) == Some(h as int),
            None => elevation_of_text(value@).is_none(),
        },
{
    if !value.is_ascii() {
        return None;
    }
    proof {
        is_ascii_spec_bytes(value);
    }
    let bytes = value.as_bytes();
    assert(bytes@ =~= plain_bytes(value@));
    parse_hundredths(bytes)
}

/// The height in hundredths that a line's "Elevation" tag gives.
pub fn elevation_of(line: &LineObject) -> (r: Option<i64>)
    ensures
        match r {
            Some(h) => elevation(line@) == Some(h as int),
            None => elevation(line@).is_none(),
        },
{
    match find_tag(&line.tags, "Elevation") {
        Some(i) => {
            assert(crate::tag::tag_views(line.tags@)[i as int] == line.tags[i as int]@);
            parse_elevation(line.tags[i].value.as_str())
        },
        None => None,
    }
}

/// Whether every line gives a height.
pub open spec fn all_have_elevation(lines: Seq<LineView>) -> bool {
    forall|i: int| 0 <= i < lines.len() ==> elevation(#[trigger] lines[i]).is_some()
}

/// The key under which line `i` is grouped: its height where every line
/// gives one, and otherwise the same key for all.
pub open spec fn group_key(lines: Seq<LineView>, i: int) -> int {
    if all_have_elevation(lines) {
        elevation(lines[i]).unwrap()
    } else {
        0
    }
}

/// The keys of the first `k` lines, each once, in the order in which they
/// first occur.
pub open spec fn group_keys(lines: Seq<LineView>, k: nat) -> Seq<int>
    decreases k,
{
    if k == 0 {
        Seq::empty()
    } else {
        let before = group_keys(lines, (k - 1) as nat);
        if before.contains(group_key(lines, k - 1)) {
            before
        } else {
            before.push(group_key(lines, k - 1))
        }
    }
}

/// Those of the first `k` lines that are grouped under `key`, in order.
pub open spec fn group_members(lines: Seq<LineView>, key: int, k: nat) -> Seq<LineView>
    decreases k,
{
    if k == 0 {
        Seq::empty()
    } else {
        let before = group_members(lines, key, (k - 1) as nat);
        if group_key(lines, k - 1) == key {
            before.push(lines[k - 1])
        } else {
            before
        }
    }
}

/// The groups of a list of lines: one for each key, in the order in which
/// the keys first occur, each with its lines in their order.
pub open spec fn groups(lines: Seq<LineView>) -> Seq<Seq<LineView>> {
    let keys = group_keys(lines, lines.len());
    Seq::new(keys.len(), |g: int| group_members(lines, keys[g], lines.len()))
}

/// The views of a list of groups.
pub open spec fn group_views(groups: Seq<Vec<LineObject>>) -> Seq<Seq<LineView>> {
    groups.map_values(|g: Vec<LineObject>| line_views(g@))
}

/// Every member of a group is one of the lines and has the group's key.
pub proof fn lemma_group_members(lines: Seq<LineView>, key: int, k: nat, j: int)
    requires
        k <= lines.len(),
        0 <= j < group_members(lines, key, k).len(),
    ensures
        exists|i: int|
            0 <= i < k && #[trigger] lines[i] == group_members(lines, key, k)[j] && group_key(lines, i)
                == key,
    decreases k,
{
    let before = group_members(lines, key, (k - 1) as nat);
    if group_key(lines, k - 1) == key && j == before.len() {
        assert(lines[k - 1] == group_members(lines, key, k)[j]);
    } else {
        lemma_group_members(lines, key, (k - 1) as nat, j);
        let i = choose|i: int|
            0 <= i < k - 1 && #[trigger] lines[i] == before[j] && group_key(lines, i) == key;
        assert(lines[i] == group_members(lines, key, k)[j]);
    }
}

/// A group has no more members than there are lines.
pub proof fn lemma_group_size(lines: Seq<LineView>, key: int, k: nat)
    ensures
        group_members(lines, key, k).len() <= k,
    decreases k,
{
    if k > 0 {
        lemma_group_size(lines, key, (k - 1) as nat);
    }
}

/// No key occurs twice among the keys.
pub proof fn lemma_group_keys_distinct(lines: Seq<LineView>, k: nat, a: int, b: int)
    requires
        0 <= a < b < group_keys(lines, k).len(),
    ensures
        group_keys(lines, k)[a] != group_keys(lines, k)[b],
    decreases k,
{
    let before = group_keys(lines, (k - 1) as nat);
    if b < before.len() {
        lemma_group_keys_distinct(lines, (k - 1) as nat, a, b);
    } else {
        assert(!before.contains(group_key(lines, k - 1)));
        assert(before[a] == group_keys(lines, k)[a]);
    }
}

/// Where every line gives a height, the lines of one group all have the same
/// height, and lines of different groups have different heights: lines of
/// different heights are never merged, whatever their ends.
pub proof fn lemma_groups_isolate(lines: Seq<LineView>, g: int, h: int, i: int, j: int)
    requires
        all_have_elevation(lines),
        0 <= g < groups(lines).len(),
        0 <= h < groups(lines).len(),
        0 <= i < groups(lines)[g].len(),
        0 <= j < groups(lines)[h].len(),
    ensures
        g == h <==> elevation(groups(lines)[g][i]) == elevation(groups(lines)[h][j]),
{
    let n = lines.len();
    let keys = group_keys(lines, n);
    lemma_group_members(lines, keys[g], n, i);
    lemma_group_members(lines, keys[h], n, j);
    if g < h {
        lemma_group_keys_distinct(lines, n, g, h);
    } else if h < g {
        lemma_group_keys_distinct(lines, n, h, g);
    }
}

/// The key of each line.
fn keys_of(lines: &Vec<LineObject>) -> (keys: Vec<i64>)
    ensures
        keys.len() == lines.len(),
        forall|i: int| 0 <= i < lines.len() ==> keys[i] == group_key(line_views(lines@), i),
{
    let ghost views = line_views(lines@);
    let mut keys: Vec<i64> = Vec::new();
    let mut all = true;
    let mut i: usize = 0;
    while i < lines.len()
        invariant
            i <= lines.len(),
            views == line_views(lines@),
            keys.len() == i,
            all <==> (forall|j: int| 0 <= j < i ==> elevation(#[trigger] views[j]).is_some()),
            all ==> forall|j: int| 0 <= j < i ==> elevation(views[j]) == Some(#[trigger] keys[j] as int),
        decreases lines.len() - i,
    {
        assert(views[i as int] == lines[i as int]@);
        match elevation_of(&lines[i]) {
            Some(h) => {
                keys.push(h);
            },
            None => {
                all = false;
                keys.push(0);
            },
        }
        i += 1;
    }
    if !all {
        let mut j: usize = 0;
        while j < keys.len()
            invariant
                j <= keys.len(),
                keys.len() == lines.len(),
                forall|k: int| 0 <= k < j ==> keys[k] == 0,
            decreases keys.len() - j,
        {
            keys.set(j, 0);
            j += 1;
        }
    }
    keys
}

/// Groups lines by the height that their "Elevation" tags give. Where a line
/// gives none, all lines form one group.
pub fn group_by_elevation(lines: &Vec<LineObject>) -> (r: Vec<Vec<LineObject>>)
    ensures
        group_views(r@) == groups(line_views(lines@)),
{
    let ghost views = line_views(lines@);
    let n = lines.len();
    let keys = keys_of(lines);
    let mut distinct: Vec<i64> = Vec::new();
    let mut i: usize = 0;
    while i < n
        invariant
            i <= n,
            n == lines.len(),
            keys.len() == n,
            views == line_views(lines@),
            forall|i: int| 0 <= i < n ==> keys[i] == group_key(views, i),
            distinct@.map_values(|k: i64| k as int) == group_keys(views, i as nat),
        decreases n - i,
    {
        let key = keys[i];
        let ghost before = distinct@.map_values(|k: i64| k as int);
        let mut found = false;
        let mut j: usize = 0;
        while j < distinct.len()
            invariant
                j <= distinct.len(),
                before == distinct@.map_values(|k: i64| k as int),
                found <==> exists|k: int| 0 <= k < j && before[k] == key,
            decreases distinct.len() - j,
        {
            if distinct[j] == key {
                assert(before[j as int] == key);
                found = true;
            }
            j += 1;
        }
        if !found {
            distinct.push(key);
            assert(distinct@.map_values(|k: i64| k as int) =~= before.push(key as int));
        }
        i += 1;
    }
    let mut r: Vec<Vec<LineObject>> = Vec::new();
    let mut g: usize = 0;
    while g < distinct.len()
        invariant
            g <= distinct.len(),
            n == lines.len(),
            keys.len() == n,
            views == line_views(lines@),
            forall|i: int| 0 <= i < n ==> keys[i] == group_key(views, i),
            distinct@.map_values(|k: i64| k as int) == group_keys(views, n as nat),
            r.len() == g,
            forall|k: int| 0 <= k < g ==> line_views(#[trigger] r[k]@) == groups(views)[k],
        decreases distinct.len() - g,
    {
        let key = distinct[g];
        assert(distinct@.map_values(|k: i64| k as int)[g as int] == key);
        let mut members: Vec<LineObject> = Vec::new();
        let mut i: usize = 0;
        while i < n
            invariant
                i <= n,
                n == lines.len(),
                keys.len() == n,
                views == line_views(lines@),
                forall|i: int| 0 <= i < n ==> keys[i] == group_key(views, i),
                line_views(members@) == group_members(views, key as int, i as nat),
            decreases n - i,
        {
            if keys[i] == key {
                let ghost before = members@;
                let copy = lines[i].clone();
                members.push(copy);
                assert(views[i as int] == lines[i as int]@);
                assert(line_views(members@) =~= line_views(before).push(copy@));
            }
            i += 1;
        }
        r.push(members);
        g += 1;
    }
    assert(group_views(r@) =~= groups(views));
    r
}

/// Merging keeps heights apart: where every line gives a height, each line
/// that a group becomes gives the height of the group, which no line of
/// another group gives.
pub proof fn lemma_merged_group_elevation(lines: Seq<LineView>, g: int, nearest: Seq<usize>, delta: u64, k: int)
    requires
        lines.len() <= usize::MAX,
        all_have_elevation(lines),
        0 <= g < groups(lines).len(),
        0 <= k < crate::merge::merged(groups(lines)[g], nearest, delta).len(),
    ensures
        elevation(crate::merge::merged(groups(lines)[g], nearest, delta)[k]) == Some(
            group_keys(lines, lines.len())[g],
        ),
        forall|h: int, j: int|
            0 <= h < groups(lines).len() && h != g && 0 <= j < groups(lines)[h].len() ==> elevation(
                #[trigger] groups(lines)[h][j],
            ) != elevation(crate::merge::merged(groups(lines)[g], nearest, delta)[k]),
{
    let n = lines.len();
    let keys = group_keys(lines, n);
    let group = groups(lines)[g];
    lemma_group_size(lines, keys[g], n);
    crate::merge::lemma_merged_heads(group, nearest, delta);
    let line = crate::merge::merged(group, nearest, delta)[k];
    assert(crate::merge::headed(group, line));
    let i = choose|i: int|
        0 <= i < group.len() && (#[trigger] group[i]).symbol == line.symbol && group[i].tags == line.tags;
    lemma_group_members(lines, keys[g], n, i);
    assert(elevation(line) == elevation(group[i]));
    assert forall|h: int, j: int|
        0 <= h < groups(lines).len() && h != g && 0 <= j < groups(lines)[h].len() implies elevation(
        #[trigger] groups(lines)[h][j],
    ) != elevation(line) by {
        lemma_groups_isolate(lines, g, h, i, j);
    }
}


/// No line is made of fragments of two heights: where every line gives a
/// height, each line that a group becomes is made of fragments of that group
/// and of nothing else, every fragment of the group gives the group's
/// height, and no fragment of another group does.
pub proof fn lemma_merged_group_parts(lines: Seq<LineView>, g: int, nearest: Seq<usize>, delta: u64, k: int)
    requires
        lines.len() <= usize::MAX,
        all_have_elevation(lines),
        0 <= g < groups(lines).len(),
        0 <= k < crate::merge::merged(groups(lines)[g], nearest, delta).len(),
    ensures
        crate::merge::made_of(groups(lines)[g], crate::merge::merged(groups(lines)[g], nearest, delta)[k]),
        forall|i: int|
            0 <= i < groups(lines)[g].len() ==> elevation(#[trigger] groups(lines)[g][i]) == Some(
                group_keys(lines, lines.len())[g],
            ),
        forall|h: int, j: int|
            0 <= h < groups(lines).len() && h != g && 0 <= j < groups(lines)[h].len() ==> elevation(
                #[trigger] groups(lines)[h][j],
            ) != Some(group_keys(lines, lines.len())[g]),
{
    let n = lines.len();
    let keys = group_keys(lines, n);
    lemma_group_size(lines, keys[g], n);
    crate::merge::lemma_merged_made_of(groups(lines)[g], nearest, delta);
    assert forall|i: int| 0 <= i < groups(lines)[g].len() implies elevation(
        #[trigger] groups(lines)[g][i],
    ) == Some(keys[g]) by {
        lemma_group_members(lines, keys[g], n, i);
    }
    assert forall|h: int, j: int|
        0 <= h < groups(lines).len() && h != g && 0 <= j < groups(lines)[h].len() implies elevation(
        #[trigger] groups(lines)[h][j],
    ) != Some(keys[g]) by {
        lemma_group_members(lines, keys[h], n, j);
        if g < h {
            lemma_group_keys_distinct(lines, n, g, h);
        } else {
            lemma_group_keys_distinct(lines, n, h, g);
        }
    }
}

} // verus!
