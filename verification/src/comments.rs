//! The comment list: a vendor text and an ordered list of tags.

use vstd::prelude::*;
use crate::seqs::{lemma_take_next, lemma_filter_within, lemma_filter_apart, lemma_filter_all};
use crate::text::{
    lowercase, to_lowercase, text_lt, precedes, lemma_text_lt_irreflexive, lemma_text_lt_total,
    lemma_text_lt_transitive,
};

verus! {

/// One tag as the contracts see it: its key and its value.
pub type Tag = (Seq<char>, Seq<char>);

/// A comment list as the contracts see it.
pub struct Comments {
    pub vendor: Seq<char>,
    pub entries: Seq<Tag>,
}

/// The comment list of a Vorbis stream.
///
/// The order of the entries is kept and is part of the value; a key may occur
/// more than once. Keys are compared without regard to case, and the editing
/// methods store them in lower case.
#[derive(Clone, Debug, PartialEq, Eq)]
pub struct CommentHeader {
    /// The text by which the encoder names itself.
    pub vendor: String,
    /// The tags, each a key and a value, in their order.
    pub comment_list: Vec<(String, String)>,
}

impl View for CommentHeader {
    type V = Comments;

    open spec fn view(&self) -> Comments {
        Comments { vendor: self.vendor@, entries: self.comment_list.deep_view() }
    }
}

/// Whether a stored key and a tag name are the same tag.
pub open spec fn same_tag(key: Seq<char>, tag: Seq<char>) -> bool {
    lowercase(key) == lowercase(tag)
}

/// The entries under a tag, in their order.
pub open spec fn tagged(entries: Seq<Tag>, tag: Seq<char>) -> Seq<Tag> {
    entries.filter(|e: Tag| same_tag(e.0, tag))
}

/// The values under a tag, in their order.
pub open spec fn values_of(entries: Seq<Tag>, tag: Seq<char>) -> Seq<Seq<char>> {
    tagged(entries, tag).map_values(|e: Tag| e.1)
}

/// The entries that are left when a tag is cleared, in their order.
pub open spec fn without(entries: Seq<Tag>, tag: Seq<char>) -> Seq<Tag> {
    entries.filter(|e: Tag| !same_tag(e.0, tag))
}

/// One entry under the lower-case form of `tag` for each value, in the order
/// of the values.
pub open spec fn tags_for(tag: Seq<char>, values: Seq<Seq<char>>) -> Seq<Tag> {
    values.map_values(|v: Seq<char>| (lowercase(tag), v))
}

/// Whether `name` is the lower-case form of some key among the entries.
pub open spec fn names(entries: Seq<Tag>, name: Seq<char>) -> bool {
    exists|i: int| 0 <= i < entries.len() && lowercase(#[trigger] entries[i].0) == name
}

/// Whether the texts stand in strictly ascending order.
pub open spec fn ascending(texts: Seq<Seq<char>>) -> bool {
    forall|i: int, j: int| 0 <= i < j < texts.len() ==> text_lt(#[trigger] texts[i], #[trigger] texts[j])
}

proof fn lemma_values_of_next(entries: Seq<Tag>, tag: Seq<char>, i: int)
    requires
        0 <= i < entries.len(),
    ensures
        values_of(entries.take(i + 1), tag) == if same_tag(entries[i].0, tag) {
            values_of(entries.take(i), tag).push(entries[i].1)
        } else {
            values_of(entries.take(i), tag)
        },
{
    reveal(Seq::filter);
    lemma_take_next(entries, i);
    let f = |e: Tag| same_tag(e.0, tag);
    assert(tagged(entries.take(i + 1), tag) == if f(entries[i]) {
        tagged(entries.take(i), tag).push(entries[i])
    } else {
        tagged(entries.take(i), tag)
    });
    if same_tag(entries[i].0, tag) {
        assert(values_of(entries.take(i + 1), tag) =~= values_of(entries.take(i), tag).push(
            entries[i].1,
        ));
    }
}

proof fn lemma_without_next(entries: Seq<Tag>, tag: Seq<char>, i: int)
    requires
        0 <= i < entries.len(),
    ensures
        without(entries.take(i + 1), tag) == if same_tag(entries[i].0, tag) {
            without(entries.take(i), tag)
        } else {
            without(entries.take(i), tag).push(entries[i])
        },
{
    reveal(Seq::filter);
    lemma_take_next(entries, i);
}

impl CommentHeader {
    /// A list with the given vendor and entries, taken as they are: no key is
    /// changed.
    pub fn from(vendor: String, comment_list: Vec<(String, String)>) -> (header: CommentHeader)
        ensures
            header.vendor == vendor,
            header.comment_list == comment_list,
    {
        CommentHeader { vendor, comment_list }
    }

    /// An empty list with an empty vendor.
    pub fn new() -> (header: CommentHeader)
        ensures
            header@.vendor == Seq::<char>::empty(),
            header@.entries == Seq::<Tag>::empty(),
    {
        let header = CommentHeader { vendor: String::new(), comment_list: Vec::new() };
        assert(header@.entries =~= Seq::<Tag>::empty());
        header
    }

    /// The tag names that occur, in lower case, each once, in ascending order.
    pub fn get_tag_names(&self) -> (found: Vec<String>)
        ensures
            ascending(found.deep_view()),
            forall|name: Seq<char>|
                found.deep_view().contains(name) <==> names(self@.entries, name),
    {
        let mut found: Vec<String> = Vec::new();
        let mut i: usize = 0;
        while i < self.comment_list.len()
            invariant
                i <= self.comment_list.len(),
                ascending(found.deep_view()),
                forall|name: Seq<char>|
                    found.deep_view().contains(name) <==> names(
                        self@.entries.take(i as int),
                        name,
                    ),
            decreases self.comment_list.len() - i,
        {
            let name = to_lowercase(self.comment_list[i].0.as_str());
            let ghost before = found.deep_view();
            let ghost seen = self@.entries.take(i as int);
            let ghost next = self@.entries.take(i + 1);
            proof {
                lemma_take_next(self@.entries, i as int);
                assert(name@ == lowercase(self@.entries[i as int].0));
            }
            insert_name(&mut found, name);
            proof {
                let after = found.deep_view();
                assert forall|n: Seq<char>| after.contains(n) <==> names(next, n) by {
                    if names(next, n) {
                        let k = choose|k: int|
                            0 <= k < next.len() && lowercase(#[trigger] next[k].0) == n;
                        if k < i {
                            assert(seen[k] == next[k]);
                            assert(names(seen, n));
                        }
                    }
                    if after.contains(n) && n != name@ {
                        assert(before.contains(n));
                        let k = choose|k: int|
                            0 <= k < seen.len() && lowercase(#[trigger] seen[k].0) == n;
                        assert(next[k] == seen[k]);
                    }
                    if n == name@ {
                        assert(next[i as int] == self@.entries[i as int]);
                    }
                }
            }
            i += 1;
        }
        proof {
            assert(self@.entries.take(i as int) =~= self@.entries);
        }
        found
    }

    /// The first value under a tag, if it has one.
    pub fn get_tag_single(&self, tag: &str) -> (value: Option<String>)
        ensures
            match value {
                Some(v) => values_of(self@.entries, tag@).len() > 0 && v@ == values_of(
                    self@.entries,
                    tag@,
                )[0],
                None => values_of(self@.entries, tag@).len() == 0,
            },
    {
        let tags = self.get_tag_multi(tag);
        if tags.len() > 0 {
            let first = tags[0].clone();
            assert(tags.deep_view()[0] == tags@[0]@);
            Some(first)
        } else {
            assert(tags.deep_view().len() == 0);
            None
        }
    }

    /// All values under a tag, in their order.
    pub fn get_tag_multi(&self, tag: &str) -> (values: Vec<String>)
        ensures
            values.deep_view() == values_of(self@.entries, tag@),
    {
        let wanted = to_lowercase(tag);
        let mut values: Vec<String> = Vec::new();
        let mut i: usize = 0;
        assert(self@.entries.take(0) =~= Seq::<Tag>::empty());
        assert(values.deep_view() =~= values_of(self@.entries.take(0), tag@)) by {
            reveal(Seq::filter);
        }
        while i < self.comment_list.len()
            invariant
                i <= self.comment_list.len(),
                wanted@ == lowercase(tag@),
                values.deep_view() == values_of(self@.entries.take(i as int), tag@),
            decreases self.comment_list.len() - i,
        {
            let key = to_lowercase(self.comment_list[i].0.as_str());
            let ghost before = values.deep_view();
            proof {
                lemma_values_of_next(self@.entries, tag@, i as int);
            }
            if key == wanted {
                let value = self.comment_list[i].1.clone();
                values.push(value);
                assert(values.deep_view() =~= before.push(self@.entries[i as int].1));
            }
            i += 1;
        }
        proof {
            assert(self@.entries.take(i as int) =~= self@.entries);
        }
        values
    }

    /// Removes every entry under a tag; the others keep their order.
    pub fn clear_tag(&mut self, tag: &str)
        ensures
            final(self)@.vendor == old(self)@.vendor,
            final(self)@.entries == without(old(self)@.entries, tag@),
    {
        let wanted = to_lowercase(tag);
        let mut kept: Vec<(String, String)> = Vec::new();
        let mut i: usize = 0;
        assert(self@.entries.take(0) =~= Seq::<Tag>::empty());
        assert(kept.deep_view() =~= without(self@.entries.take(0), tag@)) by {
            reveal(Seq::filter);
        }
        while i < self.comment_list.len()
            invariant
                i <= self.comment_list.len(),
                *self == *old(self),
                wanted@ == lowercase(tag@),
                kept.deep_view() == without(self@.entries.take(i as int), tag@),
            decreases self.comment_list.len() - i,
        {
            let key = to_lowercase(self.comment_list[i].0.as_str());
            let ghost before = kept.deep_view();
            proof {
                lemma_without_next(self@.entries, tag@, i as int);
            }
            if key != wanted {
                let entry = (self.comment_list[i].0.clone(), self.comment_list[i].1.clone());
                kept.push(entry);
                assert(kept.deep_view() =~= before.push(self@.entries[i as int]));
            }
            i += 1;
        }
        proof {
            assert(self@.entries.take(i as int) =~= self@.entries);
        }
        self.comment_list = kept;
    }

    /// Appends one entry, its key in lower case.
    pub fn add_tag_single(&mut self, tag: &str, value: &str)
        ensures
            final(self)@.vendor == old(self)@.vendor,
            final(self)@.entries == old(self)@.entries.push((lowercase(tag@), value@)),
    {
        let key = to_lowercase(tag);
        let ghost before = self@.entries;
        self.comment_list.push((key, value.to_owned()));
        assert(self@.entries =~= before.push((lowercase(tag@), value@)));
    }

    /// Appends one entry for each value, in the order of the values, all under
    /// the same key in lower case.
    pub fn add_tag_multi(&mut self, tag: &str, values: &Vec<&str>)
        ensures
            final(self)@.vendor == old(self)@.vendor,
            final(self)@.entries == old(self)@.entries + tags_for(tag@, values.deep_view()),
    {
        let mut i: usize = 0;
        assert(self@.entries =~= old(self)@.entries + tags_for(tag@, values.deep_view().take(0)));
        while i < values.len()
            invariant
                i <= values.len(),
                self@.vendor == old(self)@.vendor,
                self@.entries == old(self)@.entries + tags_for(
                    tag@,
                    values.deep_view().take(i as int),
                ),
            decreases values.len() - i,
        {
            let key = to_lowercase(tag);
            let ghost before = self@.entries;
            self.comment_list.push((key, values[i].to_owned()));
            proof {
                assert(self@.entries =~= before.push((lowercase(tag@), values[i as int]@)));
                assert(values.deep_view()[i as int] == values[i as int]@);
                assert(values.deep_view().take(i + 1) =~= values.deep_view().take(i as int).push(
                    values[i as int]@,
                ));
                assert(self@.entries =~= old(self)@.entries + tags_for(
                    tag@,
                    values.deep_view().take(i + 1),
                ));
            }
            i += 1;
        }
        proof {
            assert(values.deep_view().take(i as int) =~= values.deep_view());
        }
    }

    /// The vendor.
    pub fn get_vendor(&self) -> (vendor: String)
        ensures
            vendor@ == self@.vendor,
    {
        self.vendor.clone()
    }

    /// Replaces the vendor.
    pub fn set_vendor(&mut self, vend: &str)
        ensures
            final(self)@.vendor == vend@,
            final(self)@.entries == old(self)@.entries,
    {
        self.vendor = vend.to_owned();
    }
}

/// Values that are added under a tag are found under every name that is the
/// same tag as the key they were stored under: they come after the values
/// that the name had before, in the order in which they were given.
pub proof fn lemma_added_values_are_found(
    entries: Seq<Tag>,
    tag: Seq<char>,
    values: Seq<Seq<char>>,
    name: Seq<char>,
)
    requires
        same_tag(lowercase(tag), name),
    ensures
        values_of(entries + tags_for(tag, values), name) == values_of(entries, name) + values,
{
    let added = tags_for(tag, values);
    let pick = |e: Tag| same_tag(e.0, name);
    Seq::filter_distributes_over_add(entries, added, pick);
    lemma_filter_all(added, pick);
    assert(values_of(entries + added, name) =~= values_of(entries, name) + values);
}

/// A value that is added under a tag is the last value of every name that is
/// the same tag as the key it was stored under.
pub proof fn lemma_added_value_is_found(
    entries: Seq<Tag>,
    tag: Seq<char>,
    value: Seq<char>,
    name: Seq<char>,
)
    requires
        same_tag(lowercase(tag), name),
    ensures
        values_of(entries.push((lowercase(tag), value)), name) == values_of(entries, name).push(
            value,
        ),
{
    lemma_added_values_are_found(entries, tag, seq![value], name);
    assert(entries + tags_for(tag, seq![value]) =~= entries.push((lowercase(tag), value)));
    assert(values_of(entries, name) + seq![value] =~= values_of(entries, name).push(value));
}

/// Once a value was added under a tag, the names hold the lower-case form
/// of the key that it was stored under.
pub proof fn lemma_added_tag_is_named(entries: Seq<Tag>, tag: Seq<char>, values: Seq<Seq<char>>)
    requires
        values.len() > 0,
    ensures
        names(entries + tags_for(tag, values), lowercase(lowercase(tag))),
{
    let all = entries + tags_for(tag, values);
    assert(all[entries.len() as int].0 == lowercase(tag));
}

/// No text stands twice in an ascending list.
pub proof fn lemma_ascending_has_no_repeats(texts: Seq<Seq<char>>, i: int, j: int)
    requires
        ascending(texts),
        0 <= i < texts.len(),
        0 <= j < texts.len(),
        i != j,
    ensures
        texts[i] != texts[j],
{
    lemma_text_lt_irreflexive(texts[i]);
    if i < j {
        assert(text_lt(texts[i], texts[j]));
    } else {
        assert(text_lt(texts[j], texts[i]));
    }
}

/// A tag that was cleared has no values.
pub proof fn lemma_cleared_tag_is_empty(entries: Seq<Tag>, tag: Seq<char>)
    ensures
        values_of(without(entries, tag), tag) == Seq::<Seq<char>>::empty(),
{
    lemma_filter_apart(entries, |e: Tag| !same_tag(e.0, tag), |e: Tag| same_tag(e.0, tag));
    assert(values_of(without(entries, tag), tag) =~= Seq::<Seq<char>>::empty());
}

/// Clearing a tag leaves every other tag its entries, in their order.
pub proof fn lemma_clearing_keeps_other_tags(entries: Seq<Tag>, tag: Seq<char>, other: Seq<char>)
    requires
        !same_tag(other, tag),
    ensures
        tagged(without(entries, tag), other) == tagged(entries, other),
        values_of(without(entries, tag), other) == values_of(entries, other),
{
    lemma_filter_within(entries, |e: Tag| !same_tag(e.0, tag), |e: Tag| same_tag(e.0, other));
}

/// Puts a name into an ascending list of names, unless it is there already.
fn insert_name(found: &mut Vec<String>, name: String)
    requires
        ascending(old(found).deep_view()),
    ensures
        ascending(final(found).deep_view()),
        forall|n: Seq<char>|
            final(found).deep_view().contains(n) <==> (old(found).deep_view().contains(n) || n
                == name@),
{
    let ghost before = found.deep_view();
    let mut at: usize = 0;
    while at < found.len() && precedes(found[at].as_str(), name.as_str())
        invariant
            at <= found.len(),
            found.deep_view() == before,
            forall|j: int| 0 <= j < at ==> text_lt(#[trigger] before[j], name@),
        decreases found.len() - at,
    {
        assert(before[at as int] == found[at as int]@);
        at += 1;
    }
    if at < found.len() && found[at] == name {
        assert(before[at as int] == found[at as int]@);
        assert(before.contains(name@));
    } else {
        proof {
            if at < found.len() {
                assert(before[at as int] == found[at as int]@);
                lemma_text_lt_total(before[at as int], name@);
                assert forall|j: int| at < j < before.len() implies text_lt(
                    name@,
                    #[trigger] before[j],
                ) by {
                    lemma_text_lt_transitive(name@, before[at as int], before[j]);
                }
            }
        }
        found.insert(at, name);
        proof {
            let after = found.deep_view();
            assert(after =~= before.insert(at as int, name@));
            assert forall|n: Seq<char>| after.contains(n) <==> (before.contains(n) || n
                == name@) by {
                if before.contains(n) {
                    let k = choose|k: int| 0 <= k < before.len() && before[k] == n;
                    if k < at {
                        assert(after[k] == n);
                    } else {
                        assert(after[k + 1] == n);
                    }
                }
                if n == name@ {
                    assert(after[at as int] == n);
                }
                if after.contains(n) {
                    let k = choose|k: int| 0 <= k < after.len() && after[k] == n;
                    if k < at {
                        assert(before[k] == n);
                    } else if k > at {
                        assert(before[k - 1] == n);
                    }
                }
            }
        }
    }
}

} // verus!
