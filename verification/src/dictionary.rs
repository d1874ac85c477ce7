//! The dictionary of attributes: a table with an index in the order of the
//! tags and one in the order of the keywords, searched by bisection.

use crate::dataelem::{is_canonical_tag, tag_is_canonical, DicomAttribute};
use crate::order::{
    lemma_precedes_irreflexive, lemma_precedes_total, lemma_precedes_transitive,
    lemma_same_bytes_same_chars, order_bytes, precedes, KeyOrder,
};
use vstd::prelude::*;
use vstd::string::StringSliceAdditionalSpecFns;

verus! {

/// The characters under which an entry is found: its keyword or its tag.
pub open spec fn key_chars(a: DicomAttribute, by_keyword: bool) -> Seq<char> {
    if by_keyword {
        a.keyword@
    } else {
        a.tag@
    }
}

/// The bytes by which the indices order an entry: its key in UTF-8.
spec fn key_bytes(a: DicomAttribute, by_keyword: bool) -> Seq<u8> {
    if by_keyword {
        a.keyword.spec_bytes()
    } else {
        a.tag.spec_bytes()
    }
}

/// The key of the entry that stands at place `j` of an index.
spec fn index_key(
    entries: Seq<DicomAttribute>,
    index: Seq<usize>,
    by_keyword: bool,
    j: int,
) -> Seq<u8> {
    key_bytes(entries[index[j] as int], by_keyword)
}

/// An index names entries only, in strictly rising order of their keys.
spec fn index_ordered(
    entries: Seq<DicomAttribute>,
    index: Seq<usize>,
    by_keyword: bool,
) -> bool {
    &&& forall|j: int| 0 <= j < index.len() ==> #[trigger] index[j] < entries.len()
    &&& forall|j: int, k: int|
        0 <= j < k < index.len() ==> precedes(
            #[trigger] index_key(entries, index, by_keyword, j),
            #[trigger] index_key(entries, index, by_keyword, k),
        )
}

/// The index names entry `i`.
spec fn index_names(index: Seq<usize>, i: int) -> bool {
    exists|j: int| 0 <= j < index.len() && #[trigger] index[j] == i
}

/// The index names each of the first `n` entries.
spec fn index_covers(index: Seq<usize>, n: int) -> bool {
    forall|i: int| 0 <= i < n ==> #[trigger] index_names(index, i)
}

/// The entry with the given key, where the table holds one.
pub open spec fn lookup(entries: Seq<DicomAttribute>, key: Seq<char>, by_keyword: bool) -> Option<
    DicomAttribute,
> {
    if exists|i: int| 0 <= i < entries.len() && key_chars(#[trigger] entries[i], by_keyword) == key {
        Some(
            entries[choose|i: int|
                0 <= i < entries.len() && key_chars(#[trigger] entries[i], by_keyword) == key],
        )
    } else {
        None
    }
}

/// Entries that an ordered index names under the same key are one entry.
proof fn lemma_index_keys_distinct(
    entries: Seq<DicomAttribute>,
    index: Seq<usize>,
    by_keyword: bool,
    i1: int,
    i2: int,
)
    requires
        index_ordered(entries, index, by_keyword),
        index_names(index, i1),
        index_names(index, i2),
        key_chars(entries[i1], by_keyword) == key_chars(entries[i2], by_keyword),
    ensures
        i1 == i2,
{
    let j1 = choose|j: int| 0 <= j < index.len() && #[trigger] index[j] == i1;
    let j2 = choose|j: int| 0 <= j < index.len() && #[trigger] index[j] == i2;
    let k1 = index_key(entries, index, by_keyword, j1);
    let k2 = index_key(entries, index, by_keyword, j2);
    assert(k1 == k2);
    lemma_precedes_irreflexive(k1);
}

/// The place of `key` in an ordered index: the entries before it have smaller
/// keys, those from it on have none smaller, and the flag says whether the
/// entry at the place has this very key.
fn locate(entries: &Vec<DicomAttribute>, index: &Vec<usize>, by_keyword: bool, key: &[u8]) -> (r: (
    usize,
    bool,
))
    requires
        index_ordered(entries@, index@, by_keyword),
    ensures
        r.0 <= index.len(),
        forall|j: int|
            0 <= j < r.0 ==> precedes(#[trigger] index_key(entries@, index@, by_keyword, j), key@),
        forall|j: int|
            r.0 <= j < index.len() ==> !precedes(
                #[trigger] index_key(entries@, index@, by_keyword, j),
                key@,
            ),
        r.1 <==> (r.0 < index.len() && index_key(entries@, index@, by_keyword, r.0 as int) == key@),
{
    let mut lo: usize = 0;
    let mut hi: usize = index.len();
    while lo < hi
        invariant
            lo <= hi <= index.len(),
            index_ordered(entries@, index@, by_keyword),
            forall|j: int|
                0 <= j < lo ==> precedes(
                    #[trigger] index_key(entries@, index@, by_keyword, j),
                    key@,
                ),
            forall|j: int|
                hi <= j < index.len() ==> !precedes(
                    #[trigger] index_key(entries@, index@, by_keyword, j),
                    key@,
                ),
        decreases hi - lo,
    {
        let mid: usize = lo + (hi - lo) / 2;
        let at: usize = index[mid];
        assert(index@[mid as int] < entries.len());
        let entry = &entries[at];
        let entry_key: &[u8] = if by_keyword {
            entry.keyword.as_bytes()
        } else {
            entry.tag.as_bytes()
        };
        assert(entry_key@ == index_key(entries@, index@, by_keyword, mid as int));
        let order = order_bytes(entry_key, key);
        proof {
            lemma_precedes_total(entry_key@, key@);
        }
        if order == KeyOrder::Before {
            assert forall|j: int| 0 <= j < mid + 1 implies precedes(
                #[trigger] index_key(entries@, index@, by_keyword, j),
                key@,
            ) by {
                if j < mid {
                    lemma_precedes_transitive(
                        index_key(entries@, index@, by_keyword, j),
                        entry_key@,
                        key@,
                    );
                }
            }
            lo = mid + 1;
        } else {
            assert forall|j: int| mid <= j < index.len() implies !precedes(
                #[trigger] index_key(entries@, index@, by_keyword, j),
                key@,
            ) by {
                if j > mid && precedes(index_key(entries@, index@, by_keyword, j), key@) {
                    lemma_precedes_transitive(
                        entry_key@,
                        index_key(entries@, index@, by_keyword, j),
                        key@,
                    );
                }
            }
            hi = mid;
        }
    }
    if lo < index.len() {
        let at: usize = index[lo];
        assert(index@[lo as int] < entries.len());
        let entry = &entries[at];
        let entry_key: &[u8] = if by_keyword {
            entry.keyword.as_bytes()
        } else {
            entry.tag.as_bytes()
        };
        assert(entry_key@ == index_key(entries@, index@, by_keyword, lo as int));
        let found = order_bytes(entry_key, key) == KeyOrder::Same;
        (lo, found)
    } else {
        (lo, false)
    }
}

/// Why a list of entries makes no dictionary: the place of the first entry
/// at fault, and the fault.
#[derive(Debug, Clone, Copy, PartialEq, Eq, Structural)]
pub enum DictionaryError {
    /// The tag of the entry has not the form `(GGGG,EEEE)`.
    InvalidTag(usize),
    /// An earlier entry has the same tag.
    DuplicateTag(usize),
    /// An earlier entry has the same keyword.
    DuplicateKeyword(usize),
}

/// An entry before entry `i` has the key of entry `i`.
pub open spec fn repeats_key(entries: Seq<DicomAttribute>, i: int, by_keyword: bool) -> bool {
    exists|j: int|
        0 <= j < i && key_chars(#[trigger] entries[j], by_keyword) == key_chars(
            entries[i],
            by_keyword,
        )
}

/// The fault of entry `i`, if it has one.
pub open spec fn fault_at(entries: Seq<DicomAttribute>, i: int) -> Option<DictionaryError> {
    if !is_canonical_tag(entries[i].tag@) {
        Some(DictionaryError::InvalidTag(i as usize))
    } else if repeats_key(entries, i, false) {
        Some(DictionaryError::DuplicateTag(i as usize))
    } else if repeats_key(entries, i, true) {
        Some(DictionaryError::DuplicateKeyword(i as usize))
    } else {
        None
    }
}

/// The fault of the first entry at fault among the first `n`.
pub open spec fn first_fault(entries: Seq<DicomAttribute>, n: int) -> Option<DictionaryError>
    decreases n,
{
    if n <= 0 {
        None
    } else {
        match first_fault(entries, n - 1) {
            Some(e) => Some(e),
            None => fault_at(entries, n - 1),
        }
    }
}

/// The first `n` entries make a dictionary: the tag of each has the form
/// `(GGGG,EEEE)`, and no two of them share a tag or a keyword.
pub open spec fn entries_sound(entries: Seq<DicomAttribute>, n: int) -> bool {
    &&& forall|i: int| 0 <= i < n ==> is_canonical_tag((#[trigger] entries[i]).tag@)
    &&& forall|i: int, j: int|
        0 <= i < j < n ==> (#[trigger] entries[i]).tag@ != (#[trigger] entries[j]).tag@
            && entries[i].keyword@ != entries[j].keyword@
}

/// None of the first `n` entries is at fault exactly where they make a
/// dictionary.
pub proof fn lemma_no_fault_iff_sound(entries: Seq<DicomAttribute>, n: int)
    requires
        0 <= n <= entries.len(),
    ensures
        first_fault(entries, n) is None <==> entries_sound(entries, n),
    decreases n,
{
    if n > 0 {
        lemma_no_fault_iff_sound(entries, n - 1);
        let last = entries[n - 1];
        if entries_sound(entries, n) {
            assert(entries_sound(entries, n - 1));
            assert(!repeats_key(entries, n - 1, false));
            assert(!repeats_key(entries, n - 1, true));
        }
        if first_fault(entries, n) is None {
            assert(fault_at(entries, n - 1) is None);
            assert forall|i: int, j: int| 0 <= i < j < n implies (#[trigger] entries[i]).tag@ != (
            #[trigger] entries[j]).tag@ && entries[i].keyword@ != entries[j].keyword@ by {
                if j == n - 1 {
                    if entries[i].tag@ == last.tag@ {
                        assert(key_chars(entries[i], false) == key_chars(entries[n - 1], false));
                        assert(repeats_key(entries, n - 1, false));
                    }
                    if entries[i].keyword@ == last.keyword@ {
                        assert(key_chars(entries[i], true) == key_chars(entries[n - 1], true));
                        assert(repeats_key(entries, n - 1, true));
                    }
                }
            }
        }
    }
}

/// A fault among the first `k` entries is the first fault of any longer
/// part of the list.
proof fn lemma_first_fault_stays(entries: Seq<DicomAttribute>, k: int, n: int)
    requires
        k <= n,
        first_fault(entries, k) is Some,
    ensures
        first_fault(entries, n) == first_fault(entries, k),
    decreases n - k,
{
    if k < n {
        lemma_first_fault_stays(entries, k, n - 1);
    }
}

/// What `locate` found for the key of entry `i` in an index of the entries
/// before it says whether one of them has that key.
proof fn lemma_found_iff_repeats(
    entries: Seq<DicomAttribute>,
    index: Seq<usize>,
    by_keyword: bool,
    i: int,
    pos: int,
    found: bool,
)
    requires
        0 <= i < entries.len(),
        index_ordered(entries, index, by_keyword),
        index_covers(index, i),
        forall|j: int| 0 <= j < index.len() ==> #[trigger] index[j] < i,
        0 <= pos <= index.len(),
        forall|j: int|
            0 <= j < pos ==> precedes(
                #[trigger] index_key(entries, index, by_keyword, j),
                key_bytes(entries[i], by_keyword),
            ),
        forall|j: int|
            pos <= j < index.len() ==> !precedes(
                #[trigger] index_key(entries, index, by_keyword, j),
                key_bytes(entries[i], by_keyword),
            ),
        found <==> (pos < index.len() && index_key(entries, index, by_keyword, pos) == key_bytes(
            entries[i],
            by_keyword,
        )),
    ensures
        found <==> repeats_key(entries, i, by_keyword),
{
    let key = key_bytes(entries[i], by_keyword);
    if found {
        let j = index[pos] as int;
        assert(index_key(entries, index, by_keyword, pos) == key_bytes(entries[j], by_keyword));
        lemma_same_bytes_same_chars(
            key_chars(entries[j], by_keyword),
            key_chars(entries[i], by_keyword),
        );
        assert(0 <= j < i && key_chars(entries[j], by_keyword) == key_chars(entries[i], by_keyword));
    }
    if repeats_key(entries, i, by_keyword) {
        let j = choose|j: int|
            0 <= j < i && key_chars(#[trigger] entries[j], by_keyword) == key_chars(
                entries[i],
                by_keyword,
            );
        assert(index_names(index, j));
        let p = choose|p: int| 0 <= p < index.len() && #[trigger] index[p] == j;
        assert(index_key(entries, index, by_keyword, p) == key);
        lemma_precedes_irreflexive(key);
        if p > pos {
            assert(precedes(
                index_key(entries, index, by_keyword, pos),
                index_key(entries, index, by_keyword, p),
            ));
        }
        assert(p == pos);
    }
}

/// Entry `i`, put at the place that `locate` gave for its key, keeps the
/// index ordered, and the index then names the entries up to `i`.
proof fn lemma_insert_keeps_index(
    entries: Seq<DicomAttribute>,
    index: Seq<usize>,
    by_keyword: bool,
    i: int,
    pos: int,
)
    requires
        0 <= i < entries.len(),
        i <= usize::MAX,
        index_ordered(entries, index, by_keyword),
        index_covers(index, i),
        forall|j: int| 0 <= j < index.len() ==> #[trigger] index[j] < i,
        0 <= pos <= index.len(),
        forall|j: int|
            0 <= j < pos ==> precedes(
                #[trigger] index_key(entries, index, by_keyword, j),
                key_bytes(entries[i], by_keyword),
            ),
        forall|j: int|
            pos <= j < index.len() ==> !precedes(
                #[trigger] index_key(entries, index, by_keyword, j),
                key_bytes(entries[i], by_keyword),
            ),
        !(pos < index.len() && index_key(entries, index, by_keyword, pos) == key_bytes(
            entries[i],
            by_keyword,
        )),
    ensures
        index_ordered(entries, index.insert(pos, i as usize), by_keyword),
        index_covers(index.insert(pos, i as usize), i + 1),
        forall|j: int|
            0 <= j < index.insert(pos, i as usize).len() ==> #[trigger] index.insert(
                pos,
                i as usize,
            )[j] < i + 1,
{
    let key = key_bytes(entries[i], by_keyword);
    let grown = index.insert(pos, i as usize);
    index.insert_ensures(pos, i as usize);
    // Every entry from `pos` on has a greater key.
    assert forall|j: int| pos <= j < index.len() implies precedes(
        key,
        #[trigger] index_key(entries, index, by_keyword, j),
    ) by {
        let kj = index_key(entries, index, by_keyword, j);
        lemma_precedes_total(kj, key);
        if kj == key {
            if j > pos {
                assert(precedes(index_key(entries, index, by_keyword, pos), kj));
            }
        }
    }
    assert forall|j: int, k: int| 0 <= j < k < grown.len() implies precedes(
        #[trigger] index_key(entries, grown, by_keyword, j),
        #[trigger] index_key(entries, grown, by_keyword, k),
    ) by {
        let old_j = if j < pos { j } else { j - 1 };
        let old_k = if k < pos { k } else { k - 1 };
        assert(grown[pos] == i);
        assert(index_key(entries, grown, by_keyword, pos) == key);
        if j == pos {
            assert(precedes(key, index_key(entries, index, by_keyword, old_k)));
        }
        if k == pos {
            assert(precedes(index_key(entries, index, by_keyword, old_j), key));
        }
        if j != pos {
            assert(grown[j] == index[old_j]);
            assert(index_key(entries, grown, by_keyword, j) == index_key(
                entries,
                index,
                by_keyword,
                old_j,
            ));
        }
        if k != pos {
            assert(grown[k] == index[old_k]);
            assert(index_key(entries, grown, by_keyword, k) == index_key(
                entries,
                index,
                by_keyword,
                old_k,
            ));
        }
    }
    assert forall|j: int| 0 <= j < grown.len() implies #[trigger] grown[j] < i + 1 && grown[j]
        < entries.len() by {
        let old_j = if j < pos { j } else { j - 1 };
        if j != pos {
            assert(grown[j] == index[old_j]);
        }
    }
    assert forall|e: int| 0 <= e < i + 1 implies #[trigger] index_names(grown, e) by {
        if e == i {
            assert(grown[pos] == i);
        } else {
            assert(index_names(index, e));
            let p = choose|p: int| 0 <= p < index.len() && #[trigger] index[p] == e;
            let q = if p < pos { p } else { p + 1 };
            assert(grown[q] == e);
        }
    }
}

/// The catalog of attributes: a table of entries with two indices, one in
/// the order of the tags and one in the order of the keywords.
pub struct Dictionary {
    attributes: Vec<DicomAttribute>,
    tag_index: Vec<usize>,
    keyword_index: Vec<usize>,
}

impl Dictionary {
    /// The entries of the dictionary, in the order in which they were given.
    pub closed spec fn entries(&self) -> Seq<DicomAttribute> {
        self.attributes@
    }

    /// Every tag has the form `(GGGG,EEEE)`, and each index names every entry
    /// once, in strictly rising order of the keys.
    #[verifier::type_invariant]
    pub closed spec fn wf(&self) -> bool {
        &&& forall|i: int|
            0 <= i < self.attributes@.len() ==> is_canonical_tag(
                (#[trigger] self.attributes@[i]).tag@,
            )
        &&& index_ordered(self.attributes@, self.tag_index@, false)
        &&& index_covers(self.tag_index@, self.attributes@.len() as int)
        &&& index_ordered(self.attributes@, self.keyword_index@, true)
        &&& index_covers(self.keyword_index@, self.attributes@.len() as int)
    }

    /// The entry with the given tag.
    pub open spec fn by_tag(&self, tag: Seq<char>) -> Option<DicomAttribute> {
        lookup(self.entries(), tag, false)
    }

    /// The entry with the given keyword.
    pub open spec fn by_keyword(&self, keyword: Seq<char>) -> Option<DicomAttribute> {
        lookup(self.entries(), keyword, true)
    }

    /// Makes a dictionary of the entries, unless the tag of one has not the
    /// form `(GGGG,EEEE)` or two of them share a tag or a keyword; the error
    /// then names the first entry at fault.
    pub fn new(attributes: Vec<DicomAttribute>) -> (r: Result<Dictionary, DictionaryError>)
        ensures
            r is Ok <==> entries_sound(attributes@, attributes@.len() as int),
            match r {
                Ok(d) => d.wf() && d.entries() == attributes@,
                Err(e) => first_fault(attributes@, attributes@.len() as int) == Some(e),
            },
    {
        let n: usize = attributes.len();
        proof {
            lemma_no_fault_iff_sound(attributes@, n as int);
        }
        let mut tag_index: Vec<usize> = Vec::new();
        let mut keyword_index: Vec<usize> = Vec::new();
        let mut i: usize = 0;
        while i < n
            invariant
                i <= n,
                n == attributes.len(),
                first_fault(attributes@, i as int) is None,
                forall|k: int| 0 <= k < i ==> is_canonical_tag((#[trigger] attributes@[k]).tag@),
                index_ordered(attributes@, tag_index@, false),
                index_covers(tag_index@, i as int),
                forall|j: int| 0 <= j < tag_index@.len() ==> #[trigger] tag_index@[j] < i,
                index_ordered(attributes@, keyword_index@, true),
                index_covers(keyword_index@, i as int),
                forall|j: int| 0 <= j < keyword_index@.len() ==> #[trigger] keyword_index@[j] < i,
            decreases n - i,
        {
            let entry = &attributes[i];
            if !tag_is_canonical(entry.tag) {
                proof {
                    lemma_first_fault_stays(attributes@, i + 1, n as int);
                }
                return Err(DictionaryError::InvalidTag(i));
            }
            let (tag_pos, tag_found) = locate(&attributes, &tag_index, false, entry.tag.as_bytes());
            proof {
                lemma_found_iff_repeats(
                    attributes@,
                    tag_index@,
                    false,
                    i as int,
                    tag_pos as int,
                    tag_found,
                );
            }
            if tag_found {
                proof {
                    lemma_first_fault_stays(attributes@, i + 1, n as int);
                }
                return Err(DictionaryError::DuplicateTag(i));
            }
            let (keyword_pos, keyword_found) = locate(
                &attributes,
                &keyword_index,
                true,
                entry.keyword.as_bytes(),
            );
            proof {
                lemma_found_iff_repeats(
                    attributes@,
                    keyword_index@,
                    true,
                    i as int,
                    keyword_pos as int,
                    keyword_found,
                );
            }
            if keyword_found {
                proof {
                    lemma_first_fault_stays(attributes@, i + 1, n as int);
                }
                return Err(DictionaryError::DuplicateKeyword(i));
            }
            proof {
                lemma_insert_keeps_index(attributes@, tag_index@, false, i as int, tag_pos as int);
                lemma_insert_keeps_index(
                    attributes@,
                    keyword_index@,
                    true,
                    i as int,
                    keyword_pos as int,
                );
            }
            tag_index.insert(tag_pos, i);
            keyword_index.insert(keyword_pos, i);
            i += 1;
        }
        Ok(Dictionary { attributes, tag_index, keyword_index })
    }

    /// The number of entries.
    pub fn len(&self) -> (n: usize)
        ensures
            n == self.entries().len(),
    {
        self.attributes.len()
    }

    /// The entries, in the order in which they were given.
    pub fn attributes(&self) -> (r: &[DicomAttribute])
        ensures
            r@ == self.entries(),
    {
        self.attributes.as_slice()
    }

    /// Looks an entry up by its tag as the dictionary writes it, or by its
    /// keyword, with a binary search in the index of that key.
    pub(crate) fn search(&self, key: &str, by_keyword: bool) -> (r: Option<DicomAttribute>)
        ensures
            r == lookup(self.entries(), key@, by_keyword),
    {
        proof {
            use_type_invariant(self);
        }
        let index = if by_keyword {
            &self.keyword_index
        } else {
            &self.tag_index
        };
        let (pos, found) = locate(&self.attributes, index, by_keyword, key.as_bytes());
        if found {
            let at: usize = index[pos];
            assert(index@[pos as int] < self.attributes@.len());
            let entry = self.attributes[at];
            proof {
                lemma_same_bytes_same_chars(key_chars(entry, by_keyword), key@);
                self.lemma_lookup_finds(at as int, by_keyword);
            }
            Some(entry)
        } else {
            proof {
                let entries = self.entries();
                assert forall|i: int| 0 <= i < entries.len() implies key_chars(
                    #[trigger] entries[i],
                    by_keyword,
                ) != key@ by {
                    assert(index_names(index@, i));
                    let p = choose|p: int| 0 <= p < index@.len() && #[trigger] index@[p] == i;
                    let kp = index_key(entries, index@, by_keyword, p);
                    if key_chars(entries[i], by_keyword) == key@ {
                        assert(kp == key.spec_bytes());
                        lemma_precedes_irreflexive(kp);
                        if p > pos {
                            assert(precedes(index_key(entries, index@, by_keyword, pos as int), kp));
                        }
                    }
                }
            }
            None
        }
    }

    /// No two entries share a tag, and no two share a keyword.
    pub proof fn lemma_keys_unique(&self, i: int, j: int, by_keyword: bool)
        requires
            self.wf(),
            0 <= i < self.entries().len(),
            0 <= j < self.entries().len(),
            key_chars(self.entries()[i], by_keyword) == key_chars(self.entries()[j], by_keyword),
        ensures
            i == j,
    {
        let index = if by_keyword {
            self.keyword_index@
        } else {
            self.tag_index@
        };
        assert(index_names(index, i));
        assert(index_names(index, j));
        lemma_index_keys_distinct(self.attributes@, index, by_keyword, i, j);
    }

    /// Looking up the key of an entry gives that entry.
    pub proof fn lemma_lookup_finds(&self, i: int, by_keyword: bool)
        requires
            self.wf(),
            0 <= i < self.entries().len(),
        ensures
            lookup(self.entries(), key_chars(self.entries()[i], by_keyword), by_keyword) == Some(
                self.entries()[i],
            ),
    {
        let entries = self.entries();
        let key = key_chars(entries[i], by_keyword);
        assert(0 <= i < entries.len() && key_chars(entries[i], by_keyword) == key);
        let c = choose|c: int|
            0 <= c < entries.len() && key_chars(#[trigger] entries[c], by_keyword) == key;
        self.lemma_keys_unique(c, i, by_keyword);
    }

    /// Every tag of the dictionary has the form `(GGGG,EEEE)`.
    pub proof fn lemma_tags_canonical(&self, i: int)
        requires
            self.wf(),
            0 <= i < self.entries().len(),
        ensures
            is_canonical_tag(self.entries()[i].tag@),
    {
    }

    /// What a lookup gives is an entry of the dictionary, and it has the key
    /// that was asked for.
    pub proof fn lemma_lookup_is_entry(&self, key: Seq<char>, by_keyword: bool)
        requires
            lookup(self.entries(), key, by_keyword) is Some,
        ensures
            self.entries().contains(lookup(self.entries(), key, by_keyword)->0),
            key_chars(lookup(self.entries(), key, by_keyword)->0, by_keyword) == key,
    {
        let entries = self.entries();
        let c = choose|c: int|
            0 <= c < entries.len() && key_chars(#[trigger] entries[c], by_keyword) == key;
        assert(entries[c] == lookup(entries, key, by_keyword)->0);
    }
}

} // verus!
