//! The index from language codes to the titles of their entries.
use vstd::prelude::*;
use crate::classify::{classify, code_views, namespace_of, page_codes, page_diagnostics, Diagnostic, Heading};
use crate::key_index::KeyIndex;
use crate::language_code::LanguageCode;
use crate::name_table::LanguageNameToCode;
use crate::sort::{is_caseless_sort, sort_caseless, texts};

verus! {

/// The index after `title` is added under each code of `codes` in turn.
pub open spec fn push_all(
    m: Map<Seq<u8>, Seq<Seq<char>>>,
    codes: Seq<Seq<u8>>,
    title: Seq<char>,
) -> Map<Seq<u8>, Seq<Seq<char>>>
    decreases codes.len(),
{
    if codes.len() == 0 {
        m
    } else {
        push_one(push_all(m, codes.drop_last(), title), codes.last(), title)
    }
}

/// The index after `title` is added under `code`.
pub open spec fn push_one(m: Map<Seq<u8>, Seq<Seq<char>>>, code: Seq<u8>, title: Seq<char>) -> Map<
    Seq<u8>,
    Seq<Seq<char>>,
> {
    m.insert(
        code,
        if m.contains_key(code) {
            m[code].push(title)
        } else {
            seq![title]
        },
    )
}

/// The index after each of `titles` is filed under `code` in turn.
pub open spec fn push_titles(
    m: Map<Seq<u8>, Seq<Seq<char>>>,
    code: Seq<u8>,
    titles: Seq<Seq<char>>,
) -> Map<Seq<u8>, Seq<Seq<char>>>
    decreases titles.len(),
{
    if titles.len() == 0 {
        m
    } else {
        push_one(push_titles(m, code, titles.drop_last()), code, titles.last())
    }
}

/// Titles filed one after another under a single code of an empty index
/// stand under that code in the order in which they were filed, and the
/// index holds no other code.
pub proof fn lemma_one_code_keeps_order(code: Seq<u8>, titles: Seq<Seq<char>>)
    requires
        titles.len() > 0,
    ensures
        push_titles(Map::empty(), code, titles) == Map::<Seq<u8>, Seq<Seq<char>>>::empty().insert(
            code,
            titles,
        ),
    decreases titles.len(),
{
    let empty = Map::<Seq<u8>, Seq<Seq<char>>>::empty();
    let prev = push_titles(empty, code, titles.drop_last());
    assert(push_titles(empty, code, titles) == push_one(prev, code, titles.last()));
    if titles.len() == 1 {
        assert(prev == empty);
        assert(seq![titles.last()] =~= titles);
    } else {
        lemma_one_code_keeps_order(code, titles.drop_last());
        assert(prev[code].push(titles.last()) =~= titles);
    }
    assert(push_one(prev, code, titles.last()) =~= empty.insert(code, titles));
}

/// For each language code met so far, the titles filed under it in the
/// order in which they came. The same title may stand twice.
pub struct LanguagesToEntries {
    slots: KeyIndex,
    codes: Vec<LanguageCode>,
    lists: Vec<Vec<String>>,
}

impl LanguagesToEntries {
    /// Each code has one list, and no code stands twice.
    pub closed spec fn wf(self) -> bool {
        &&& self.codes.len() == self.lists.len()
        &&& self.slots.wf()
        &&& self.slots@.len() == self.codes.len()
        &&& forall|i: int| 0 <= i < self.codes.len() ==> #[trigger] self.slots@[i] == self.codes[i]@
        &&& forall|i: int, j: int|
            0 <= i < self.codes.len() && 0 <= j < self.codes.len() && i != j
                ==> self.codes[i]@ != self.codes[j]@
    }

    closed spec fn has(self, k: Seq<u8>) -> bool {
        exists|i: int| 0 <= i < self.codes.len() && self.codes[i]@ == k
    }

    closed spec fn slot(self, k: Seq<u8>) -> int {
        choose|i: int| 0 <= i < self.codes.len() && self.codes[i]@ == k
    }
}

impl View for LanguagesToEntries {
    type V = Map<Seq<u8>, Seq<Seq<char>>>;

    closed spec fn view(&self) -> Map<Seq<u8>, Seq<Seq<char>>> {
        Map::new(|k: Seq<u8>| self.has(k), |k: Seq<u8>| texts(self.lists[self.slot(k)]@))
    }
}

impl LanguagesToEntries {
    /// An empty index.
    pub fn new() -> (r: LanguagesToEntries)
        ensures
            r.wf(),
            r@ == Map::<Seq<u8>, Seq<Seq<char>>>::empty(),
    {
        let r = LanguagesToEntries { slots: KeyIndex::new(), codes: Vec::new(), lists: Vec::new() };
        assert(r@ =~= Map::<Seq<u8>, Seq<Seq<char>>>::empty());
        r
    }

    /// The position of a code among the index's codes, or the number of
    /// codes where it has none.
    fn slot_of(&self, language_code: &LanguageCode) -> (r: usize)
        requires
            self.wf(),
        ensures
            r <= self.codes.len(),
            r < self.codes.len() ==> self.codes[r as int]@ == language_code@,
            r == self.codes.len() ==> forall|j: int|
                0 <= j < self.codes.len() ==> self.codes[j]@ != language_code@,
    {
        let key = language_code.as_bytes();
        match self.slots.last_position(key.as_slice()) {
            Some(i) => i,
            None => {
                assert forall|j: int| 0 <= j < self.codes.len() implies self.codes[j]@
                    != language_code@ by {
                    assert(self.slots@[j] == self.codes[j]@);
                }
                self.codes.len()
            },
        }
    }

    /// Files `title` under `language_code`, after the titles already there.
    pub fn push(&mut self, language_code: LanguageCode, title: &str)
        requires
            old(self).wf(),
        ensures
            final(self).wf(),
            final(self)@ == push_one(old(self)@, language_code@, title@),
    {
        let ghost before = *self;
        let i = self.slot_of(&language_code);
        if i < self.codes.len() {
            assert(self.codes[i as int]@ == language_code@);
            let mut list: Vec<String> = Vec::new();
            std::mem::swap(&mut list, &mut self.lists[i]);
            list.push(title.to_owned());
            std::mem::swap(&mut list, &mut self.lists[i]);
            proof {
                assert(self.codes == before.codes);
                assert(forall|j: int| 0 <= j < self.lists.len() && j != i ==> self.lists[j] == before.lists[j]);
                assert(before.slot(language_code@) == i) by {
                    let s = before.slot(language_code@);
                    assert(before.has(language_code@));
                }
                assert forall|k: Seq<u8>| #[trigger] before.has(k) implies self.has(k) && before.slot(k) == self.slot(k) by {
                }
                assert(texts(self.lists[i as int]@) =~= texts(before.lists[i as int]@).push(title@));
                assert(self@ =~= push_one(before@, language_code@, title@));
            }
        } else {
            let mut list: Vec<String> = Vec::new();
            list.push(title.to_owned());
            let key = language_code.as_bytes();
            self.slots.push(key.as_slice());
            self.codes.push(language_code);
            self.lists.push(list);
            proof {
                assert(!before.has(language_code@));
                let n = before.codes.len() as int;
                assert(self.codes[n] == language_code);
                assert(self.has(language_code@));
                assert(self.slot(language_code@) == n);
                assert forall|k: Seq<u8>| #[trigger] before.has(k) implies self.has(k) && before.slot(k) == self.slot(k) by {
                    let s = before.slot(k);
                    assert(self.codes[s] == before.codes[s]);
                }
                assert forall|k: Seq<u8>| #[trigger] self.has(k) && k != language_code@ implies before.has(k) by {
                    let s = self.slot(k);
                    assert(s < n);
                }
                assert(texts(self.lists[n]@) =~= seq![title@]);
                assert(self@ =~= push_one(before@, language_code@, title@));
            }
        }
    }

    /// Classifies a page and files its title under each code found, in the
    /// order found; returns the page's diagnostics.
    pub fn add_page(
        &mut self,
        table: &LanguageNameToCode,
        namespace: i32,
        title: &str,
        headings: &[Heading],
    ) -> (r: Vec<Diagnostic>)
        requires
            old(self).wf(),
        ensures
            final(self).wf(),
            final(self)@ == push_all(
                old(self)@,
                page_codes(namespace_of(namespace), table@, title@, headings@),
                title@,
            ),
            page_diagnostics(r@, namespace_of(namespace), table@, title@, headings@),
    {
        let found = classify(table, namespace, title, headings);
        let ghost start = self@;
        let ghost all = code_views(found.codes@);
        let mut k: usize = 0;
        while k < found.codes.len()
            invariant
                self.wf(),
                all == code_views(found.codes@),
                0 <= k <= found.codes.len(),
                self@ == push_all(start, all.take(k as int), title@),
            decreases found.codes.len() - k,
        {
            self.push(found.codes[k], title);
            proof {
                assert(all.take(k + 1).drop_last() =~= all.take(k as int));
            }
            k = k + 1;
        }
        assert(all.take(k as int) =~= all);
        found.diagnostics
    }

    /// Each code with its titles sorted stably by case-folded text, in their
    /// own case. The codes come in no particular order.
    pub fn into_sorted_lists(self) -> (r: Vec<(LanguageCode, Vec<String>)>)
        requires
            self.wf(),
        ensures
            forall|i: int|
                0 <= i < r@.len() ==> self@.contains_key(#[trigger] r@[i].0@) && is_caseless_sort(
                    self@[r@[i].0@],
                    texts(r@[i].1@),
                ),
            forall|k: Seq<u8>|
                self@.contains_key(k) ==> exists|i: int| 0 <= i < r@.len() && #[trigger] r@[i].0@ == k,
            forall|i: int, j: int|
                0 <= i < r@.len() && 0 <= j < r@.len() && i != j ==> r@[i].0@ != r@[j].0@,
    {
        let mut out: Vec<(LanguageCode, Vec<String>)> = Vec::with_capacity(self.codes.len());
        let mut i: usize = 0;
        while i < self.codes.len()
            invariant
                self.wf(),
                0 <= i <= self.codes.len(),
                out@.len() == i,
                forall|m: int| 0 <= m < i ==> #[trigger] out@[m].0 == self.codes[m],
                forall|m: int|
                    0 <= m < i ==> is_caseless_sort(
                        texts(self.lists[m]@),
                        texts(#[trigger] out@[m].1@),
                    ),
            decreases self.codes.len() - i,
        {
            let sorted = sort_caseless(&self.lists[i]);
            out.push((self.codes[i], sorted));
            i = i + 1;
        }
        proof {
            assert forall|m: int| 0 <= m < out@.len() implies self@.contains_key(
                #[trigger] out@[m].0@,
            ) && is_caseless_sort(self@[out@[m].0@], texts(out@[m].1@)) by {
                assert(self.has(self.codes[m]@));
                assert(self.slot(self.codes[m]@) == m);
            }
            assert forall|k: Seq<u8>| self@.contains_key(k) implies exists|m: int|
                0 <= m < out@.len() && #[trigger] out@[m].0@ == k by {
                let m = self.slot(k);
                assert(out@[m].0@ == k);
            }
        }
        out
    }
}

} // verus!
