//! Ordered sets of URLs.

use vstd::prelude::*;

verus! {

/// Whether a text is among some strings.
pub open spec fn lists_text(strings: Seq<String>, text: Seq<char>) -> bool {
    exists|i: int| 0 <= i < strings.len() && (#[trigger] strings[i])@ == text
}

/// No text occurs twice.
pub open spec fn all_distinct(strings: Seq<String>) -> bool {
    forall|i: int, j: int|
        0 <= i < j < strings.len() ==> (#[trigger] strings[i])@ != (#[trigger] strings[j])@
}

/// The texts among some strings.
pub open spec fn text_set(strings: Seq<String>) -> Set<Seq<char>> {
    Set::new(|text: Seq<char>| lists_text(strings, text))
}

/// `first`, then what `second` adds to it, in order.
pub open spec fn merged(first: Seq<String>, second: Seq<String>) -> Seq<String>
    decreases second.len(),
{
    if second.len() == 0 {
        first
    } else {
        let so_far = merged(first, second.drop_last());
        if lists_text(so_far, second.last()@) {
            so_far
        } else {
            so_far.push(second.last())
        }
    }
}

/// A set of URLs that remembers the order in which they came. Nothing occurs
/// twice, and what came first stays first.
#[derive(Debug)]
pub struct UrlSet {
    urls: Vec<String>,
}

impl View for UrlSet {
    type V = Seq<String>;

    closed spec fn view(&self) -> Seq<String> {
        self.urls@
    }
}

impl UrlSet {
    /// Validity: nothing occurs twice.
    pub open spec fn wf(self) -> bool {
        all_distinct(self@)
    }

    /// The empty set.
    pub fn new() -> (r: UrlSet)
        ensures
            r.wf(),
            r@ == Seq::<String>::empty(),
    {
        UrlSet { urls: Vec::new() }
    }

    /// Number of URLs.
    pub fn len(&self) -> (r: usize)
        ensures
            r == self@.len(),
    {
        self.urls.len()
    }

    /// The URL at a position.
    pub fn get(&self, at: usize) -> (r: &String)
        requires
            at < self@.len(),
        ensures
            *r == self@[at as int],
    {
        &self.urls[at]
    }

    /// Whether a URL is in the set.
    pub fn contains(&self, url: &String) -> (r: bool)
        ensures
            r == lists_text(self@, url@),
            r == exists|i: int| 0 <= i < self@.len() && (#[trigger] self@[i])@ == url@,
    {
        let mut i: usize = 0;
        while i < self.urls.len()
            invariant
                i <= self.urls@.len(),
                forall|k: int| 0 <= k < i ==> (#[trigger] self.urls@[k])@ != url@,
            decreases self.urls@.len() - i,
        {
            if self.urls[i] == *url {
                assert(self@[i as int]@ == url@);
                return true;
            }
            i += 1;
        }
        false
    }

    /// Add a URL; one that is already there stays where it is.
    pub fn insert(&mut self, url: String)
        requires
            old(self).wf(),
        ensures
            final(self).wf(),
            final(self)@ == if lists_text(old(self)@, url@) {
                old(self)@
            } else {
                old(self)@.push(url)
            },
            text_set(final(self)@) == text_set(old(self)@).insert(url@),
            old(self)@.is_prefix_of(final(self)@),
            final(self)@.len() <= old(self)@.len() + 1,
            exists|i: int| 0 <= i < final(self)@.len() && (#[trigger] final(self)@[i])@ == url@,
            final(self)@.len() > old(self)@.len() ==> final(self)@.last() == url,
    {
        let ghost before = self@;
        if !self.contains(&url) {
            let ghost added = url;
            self.urls.push(url);
            proof {
                lemma_text_set_push(before, added);
            }
            assert(self@[before.len() as int]@ == added@);
            assert forall|i: int, j: int| 0 <= i < j < self@.len() implies (#[trigger] self@[i])@
                != (#[trigger] self@[j])@ by {
                if j == before.len() {
                    assert(before[i]@ != added@);
                } else {
                    assert(before[i]@ != before[j]@);
                }
            }
        } else {
            assert(text_set(self@) =~= text_set(before).insert(url@));
        }
    }

    /// Add every URL of another set.
    pub fn insert_all(&mut self, other: &UrlSet)
        requires
            old(self).wf(),
        ensures
            final(self).wf(),
            final(self)@ == merged(old(self)@, other@),
            text_set(final(self)@) == text_set(old(self)@).union(text_set(other@)),
    {
        let mut i: usize = 0;
        assert(text_set(other@.take(0)) =~= Set::empty());
        assert(text_set(self@) =~= text_set(old(self)@).union(text_set(other@.take(0))));
        while i < other.len()
            invariant
                self.wf(),
                i <= other@.len(),
                self@ == merged(old(self)@, other@.take(i as int)),
                text_set(self@) == text_set(old(self)@).union(text_set(other@.take(i as int))),
            decreases other@.len() - i,
        {
            proof {
                let done = other@.take(i as int);
                let more = other@.take(i + 1);
                let next = other@[i as int];
                lemma_text_set_push(done, next);
                assert(more =~= done.push(next));
                assert(more.drop_last() =~= done);
                assert(text_set(old(self)@).union(text_set(more)) =~= text_set(old(self)@).union(
                    text_set(done),
                ).insert(next@));
            }
            self.insert(other.get(i).clone());
            i += 1;
        }
        assert(other@.take(i as int) =~= other@);
    }
}

/// Adding one string adds its text.
pub proof fn lemma_text_set_push(strings: Seq<String>, string: String)
    ensures
        text_set(strings.push(string)) == text_set(strings).insert(string@),
{
    let more = strings.push(string);
    assert(more[strings.len() as int]@ == string@);
    assert forall|text: Seq<char>| lists_text(strings, text) implies lists_text(more, text) by {
        let i = choose|i: int| 0 <= i < strings.len() && (#[trigger] strings[i])@ == text;
        assert(more[i]@ == text);
    }
    assert forall|text: Seq<char>|
        lists_text(more, text) && text != string@ implies lists_text(strings, text) by {
        let i = choose|i: int| 0 <= i < more.len() && (#[trigger] more[i])@ == text;
        assert(strings[i]@ == text);
    }
    assert(text_set(more) =~= text_set(strings).insert(string@));
}

/// The texts among some strings are those that one of them reads.
pub proof fn law_text_set_is_what_is_listed(strings: Seq<String>, text: Seq<char>)
    ensures
        text_set(strings).contains(text) <==> exists|i: int|
            0 <= i < strings.len() && (#[trigger] strings[i])@ == text,
{
}

/// Merging keeps the first list in front and adds what the second has besides,
/// each text once.
pub proof fn law_merging_adds_what_is_new(first: Seq<String>, second: Seq<String>, text: Seq<char>)
    ensures
        first.is_prefix_of(merged(first, second)),
        (exists|i: int|
            0 <= i < merged(first, second).len() && (#[trigger] merged(first, second)[i])@ == text)
            <==> (exists|i: int| 0 <= i < first.len() && (#[trigger] first[i])@ == text) || (
        exists|i: int| 0 <= i < second.len() && (#[trigger] second[i])@ == text),
        all_distinct(first) ==> all_distinct(merged(first, second)),
    decreases second.len(),
{
    if second.len() > 0 {
        let head = second.drop_last();
        let so_far = merged(first, head);
        let all = merged(first, second);
        law_merging_adds_what_is_new(first, head, text);
        if exists|i: int| 0 <= i < so_far.len() && (#[trigger] so_far[i])@ == text {
            let i = choose|i: int| 0 <= i < so_far.len() && (#[trigger] so_far[i])@ == text;
            assert(all[i]@ == text);
        }
        if exists|i: int| 0 <= i < head.len() && (#[trigger] head[i])@ == text {
            let i = choose|i: int| 0 <= i < head.len() && (#[trigger] head[i])@ == text;
            assert(second[i]@ == text);
        }
        if second.last()@ == text {
            assert(second[second.len() - 1]@ == text);
            if lists_text(so_far, text) {
                let i = choose|i: int| 0 <= i < so_far.len() && (#[trigger] so_far[i])@ == text;
                assert(all[i]@ == text);
            } else {
                assert(all[all.len() - 1]@ == text);
            }
        }
        if exists|i: int| 0 <= i < all.len() && (#[trigger] all[i])@ == text {
            let i = choose|i: int| 0 <= i < all.len() && (#[trigger] all[i])@ == text;
            if i < so_far.len() {
                assert(so_far[i]@ == text);
            }
        }
        if exists|i: int| 0 <= i < second.len() && (#[trigger] second[i])@ == text {
            let i = choose|i: int| 0 <= i < second.len() && (#[trigger] second[i])@ == text;
            if i < head.len() {
                assert(head[i]@ == text);
            }
        }
    }
}

} // verus!
