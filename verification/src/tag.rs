use vstd::prelude::*;

verus! {

/// One attribute of a feature: a name and its value. Names are case-sensitive
/// and neither part is checked against any schema.
#[derive(Debug)]
pub struct Tag {
    pub key: String,
    pub value: String,
}

/// What a tag says: its name and its value as character sequences.
pub struct TagView {
    pub key: Seq<char>,
    pub value: Seq<char>,
}

impl View for Tag {
    type V = TagView;

    open spec fn view(&self) -> TagView {
        TagView { key: self.key@, value: self.value@ }
    }
}

impl Clone for Tag {
    fn clone(&self) -> (r: Tag)
        ensures
            r@ == self@,
    {
        Tag { key: self.key.clone(), value: self.value.clone() }
    }
}

/// The views of a list of tags, in order.
pub open spec fn tag_views(tags: Seq<Tag>) -> Seq<TagView> {
    tags.map_values(|t: Tag| t@)
}

/// Where the first tag named `key` stands in a list, if there is one.
pub open spec fn position_of(tags: Seq<TagView>, key: Seq<char>) -> Option<int>
    decreases tags.len(),
{
    if tags.len() == 0 {
        None
    } else if tags[0].key == key {
        Some(0int)
    } else {
        match position_of(tags.drop_first(), key) {
            Some(i) => Some(i + 1),
            None => None,
        }
    }
}

/// The list after `key` has been given `value`: the tag of that name changes
/// its value in place, or a new tag joins the end.
pub open spec fn with_tag(tags: Seq<TagView>, key: Seq<char>, value: Seq<char>) -> Seq<TagView> {
    match position_of(tags, key) {
        Some(i) => tags.update(i, TagView { key, value }),
        None => tags.push(TagView { key, value }),
    }
}

/// The value that a list gives to `key`.
pub open spec fn value_of(tags: Seq<TagView>, key: Seq<char>) -> Option<Seq<char>> {
    match position_of(tags, key) {
        Some(i) => Some(tags[i].value),
        None => None,
    }
}

/// `position_of` finds the first tag of the name and nothing before it.
pub proof fn lemma_position_of(tags: Seq<TagView>, key: Seq<char>)
    ensures
        match position_of(tags, key) {
            Some(i) => 0 <= i < tags.len() && tags[i].key == key && forall|j: int|
                0 <= j < i ==> tags[j].key != key,
            None => forall|j: int| 0 <= j < tags.len() ==> tags[j].key != key,
        },
    decreases tags.len(),
{
    if tags.len() > 0 && tags[0].key != key {
        let rest = tags.drop_first();
        lemma_position_of(rest, key);
        match position_of(rest, key) {
            Some(i) => {
                assert forall|j: int| 0 <= j < i + 1 implies tags[j].key != key by {
                    if j > 0 {
                        assert(rest[j - 1].key != key);
                    }
                }
            },
            None => {
                assert forall|j: int| 0 <= j < tags.len() implies tags[j].key != key by {
                    if j > 0 {
                        assert(rest[j - 1].key != key);
                    }
                }
            },
        }
    }
}

/// The index of the first tag named `key`.
pub fn find_tag(tags: &Vec<Tag>, key: &str) -> (r: Option<usize>)
    ensures
        match r {
            Some(i) => i < tags.len() && position_of(tag_views(tags@), key@) == Some(i as int),
            None => position_of(tag_views(tags@), key@).is_none(),
        },
{
    let ghost views = tag_views(tags@);
    let mut i: usize = 0;
    while i < tags.len()
        invariant
            i <= tags.len(),
            views == tag_views(tags@),
            forall|j: int| 0 <= j < i ==> views[j].key != key@,
        decreases tags.len() - i,
    {
        assert(views[i as int] == tags[i as int]@);
        if str_equal(tags[i].key.as_str(), key) {
            proof {
                lemma_position_of(views, key@);
            }
            return Some(i);
        }
        i += 1;
    }
    proof {
        lemma_position_of(views, key@);
    }
    None
}

/// Whether two strings hold the same characters.
pub fn str_equal(a: &str, b: &str) -> (r: bool)
    ensures
        r == (a@ == b@),
{
    let x = a.to_owned();
    let y = b.to_owned();
    x == y
}

/// Gives `key` the value `value` in a list of tags, keeping names unique.
pub fn set_tag(tags: &mut Vec<Tag>, key: &str, value: &str)
    ensures
        tag_views(final(tags)@) == with_tag(tag_views(old(tags)@), key@, value@),
{
    let tag = Tag { key: key.to_owned(), value: value.to_owned() };
    match find_tag(tags, key) {
        Some(i) => {
            tags.set(i, tag);
            assert(tag_views(tags@) =~= with_tag(tag_views(old(tags)@), key@, value@));
        },
        None => {
            tags.push(tag);
            assert(tag_views(tags@) =~= with_tag(tag_views(old(tags)@), key@, value@));
        },
    }
}

/// A copy of a list of tags.
pub fn copy_tags(tags: &Vec<Tag>) -> (r: Vec<Tag>)
    ensures
        tag_views(r@) == tag_views(tags@),
{
    let mut r: Vec<Tag> = Vec::new();
    let mut i: usize = 0;
    while i < tags.len()
        invariant
            i <= tags.len(),
            r.len() == i,
            forall|j: int| 0 <= j < i ==> r[j]@ == tags[j]@,
        decreases tags.len() - i,
    {
        r.push(tags[i].clone());
        i += 1;
    }
    assert(tag_views(r@) =~= tag_views(tags@));
    r
}

} // verus!
