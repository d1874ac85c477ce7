//! The dataset: the elements of a file in the order of the stream, with the
//! pixel data apart.

use crate::dataelem::{
    attribute_by_keyword, attribute_by_tag, element_views, normalize_tag_spec, DataElement,
    DicomAttribute, ElementView,
};
use crate::dictionary::Dictionary;
use crate::order::str_equal;
use vstd::prelude::*;

verus! {

/// The elements of a file in the order of the stream, those of the file
/// meta group apart from the others, and the pixel data.
#[derive(Debug)]
pub struct Dataset {
    file_meta: Vec<DataElement>,
    data_elements: Vec<DataElement>,
    pixel_data: Option<Vec<u8>>,
}

/// What a dataset holds.
pub struct DatasetView {
    pub file_meta: Seq<ElementView>,
    pub elements: Seq<ElementView>,
    pub pixel_data: Option<Seq<u8>>,
}

impl DatasetView {
    /// The dataset that holds nothing.
    pub open spec fn empty() -> DatasetView {
        DatasetView { file_meta: Seq::empty(), elements: Seq::empty(), pixel_data: None }
    }
}

/// The attribute that a tag or a keyword names: the input is taken for a
/// tag first, and for a keyword where the dictionary has no such tag.
pub open spec fn resolve_attribute(dict: &Dictionary, tag_or_keyword: Seq<char>) -> Option<
    DicomAttribute,
> {
    match dict.by_tag(normalize_tag_spec(tag_or_keyword)) {
        Some(attribute) => Some(attribute),
        None => dict.by_keyword(tag_or_keyword),
    }
}

/// The first of the elements that has the tag.
pub open spec fn first_with_tag(elements: Seq<ElementView>, tag: Seq<char>) -> Option<ElementView>
    decreases elements.len(),
{
    if elements.len() == 0 {
        None
    } else if elements[0].attribute.tag == tag {
        Some(elements[0])
    } else {
        first_with_tag(elements.drop_first(), tag)
    }
}

impl DatasetView {
    /// The element that a tag or a keyword names: the first with the tag of
    /// the attribute in the file meta group, else the first in the main
    /// dataset.
    pub open spec fn get(self, dict: &Dictionary, tag_or_keyword: Seq<char>) -> Option<ElementView> {
        match resolve_attribute(dict, tag_or_keyword) {
            None => None,
            Some(attribute) => match first_with_tag(self.file_meta, attribute.tag@) {
                Some(e) => Some(e),
                None => first_with_tag(self.elements, attribute.tag@),
            },
        }
    }
}

/// The first of the elements that has the tag.
fn find_with_tag<'a>(elements: &'a Vec<DataElement>, tag: &str) -> (r: Option<&'a DataElement>)
    ensures
        match r {
            Some(e) => first_with_tag(element_views(elements@), tag@) == Some(e@),
            None => first_with_tag(element_views(elements@), tag@) is None,
        },
{
    let ghost views = element_views(elements@);
    let mut i: usize = 0;
    assert(views.skip(0) =~= views);
    while i < elements.len()
        invariant
            i <= elements.len(),
            views == element_views(elements@),
            first_with_tag(views, tag@) == first_with_tag(views.skip(i as int), tag@),
        decreases elements.len() - i,
    {
        assert(views.skip(i as int)[0] == elements@[i as int]@);
        if str_equal(elements[i].attribute.tag, tag) {
            return Some(&elements[i]);
        }
        assert(views.skip(i as int).drop_first() =~= views.skip(i as int + 1));
        i += 1;
    }
    None
}

impl View for Dataset {
    type V = DatasetView;

    closed spec fn view(&self) -> DatasetView {
        DatasetView {
            file_meta: element_views(self.file_meta@),
            elements: element_views(self.data_elements@),
            pixel_data: match self.pixel_data {
                Some(data) => Some(data@),
                None => None,
            },
        }
    }
}

impl Dataset {
    /// The dataset that holds nothing.
    pub fn new() -> (ds: Dataset)
        ensures
            ds@ == DatasetView::empty(),
    {
        let ds = Dataset { file_meta: Vec::new(), data_elements: Vec::new(), pixel_data: None };
        assert(ds@.file_meta =~= Seq::empty());
        assert(ds@.elements =~= Seq::empty());
        ds
    }

    /// Puts `meta` in the place of the elements of the file meta group.
    pub fn set_file_meta(&mut self, meta: Vec<DataElement>)
        ensures
            final(self)@ == (DatasetView { file_meta: element_views(meta@), ..old(self)@ }),
    {
        self.file_meta = meta;
    }

    /// The elements of the file meta group, in the order of the stream.
    pub fn file_meta(&self) -> (r: &[DataElement])
        ensures
            element_views(r@) == self@.file_meta,
    {
        self.file_meta.as_slice()
    }

    /// Appends an element to the main dataset.
    pub fn push(&mut self, elem: DataElement)
        ensures
            final(self)@ == (DatasetView {
                elements: old(self)@.elements.push(elem@),
                ..old(self)@
            }),
    {
        self.data_elements.push(elem);
        assert(element_views(self.data_elements@) =~= element_views(old(self).data_elements@).push(
            elem@,
        ));
    }

    /// Puts `data` in the place of the pixel data.
    pub fn set_pixel_data(&mut self, data: Vec<u8>)
        ensures
            final(self)@ == (DatasetView { pixel_data: Some(data@), ..old(self)@ }),
    {
        self.pixel_data = Some(data);
    }

    /// The elements of the main dataset, in the order of the stream. The
    /// pixel data has an element here, without its bytes.
    pub fn elements(&self) -> (r: &[DataElement])
        ensures
            element_views(r@) == self@.elements,
    {
        self.data_elements.as_slice()
    }

    /// The bytes of the pixel data, where the stream held any.
    pub fn pixel_data(&self) -> (r: Option<&[u8]>)
        ensures
            match r {
                Some(data) => self@.pixel_data == Some(data@),
                None => self@.pixel_data is None,
            },
    {
        match &self.pixel_data {
            Some(data) => Some(data.as_slice()),
            None => None,
        }
    }
}

impl Dataset {
    /// The element that a tag or a keyword names: the input is taken for a
    /// tag first, and the file meta group is searched before the main
    /// dataset.
    pub fn get(&self, dict: &Dictionary, tag_or_keyword: &str) -> (r: Option<&DataElement>)
        ensures
            match r {
                Some(e) => self@.get(dict, tag_or_keyword@) == Some(e@),
                None => self@.get(dict, tag_or_keyword@) is None,
            },
    {
        let attribute = match attribute_by_tag(dict, tag_or_keyword) {
            Some(a) => a,
            None => match attribute_by_keyword(dict, tag_or_keyword) {
                Some(a) => a,
                None => {
                    return None;
                },
            },
        };
        match find_with_tag(&self.file_meta, attribute.tag) {
            Some(found) => Some(found),
            None => find_with_tag(&self.data_elements, attribute.tag),
        }
    }
}

impl Default for Dataset {
    fn default() -> (ds: Dataset)
        ensures
            ds@ == DatasetView::empty(),
    {
        Dataset::new()
    }
}

impl Clone for Dataset {
    fn clone(&self) -> (r: Dataset)
        ensures
            r@ == self@,
    {
        let mut file_meta: Vec<DataElement> = Vec::new();
        let mut i: usize = 0;
        while i < self.file_meta.len()
            invariant
                i <= self.file_meta.len(),
                file_meta.len() == i,
                forall|k: int| 0 <= k < i ==> file_meta@[k]@ == self.file_meta@[k]@,
            decreases self.file_meta.len() - i,
        {
            file_meta.push(self.file_meta[i].clone());
            i += 1;
        }
        let mut data_elements: Vec<DataElement> = Vec::new();
        let mut j: usize = 0;
        while j < self.data_elements.len()
            invariant
                j <= self.data_elements.len(),
                data_elements.len() == j,
                forall|k: int| 0 <= k < j ==> data_elements@[k]@ == self.data_elements@[k]@,
            decreases self.data_elements.len() - j,
        {
            data_elements.push(self.data_elements[j].clone());
            j += 1;
        }
        let pixel_data = match &self.pixel_data {
            Some(data) => Some(data.clone()),
            None => None,
        };
        let r = Dataset { file_meta, data_elements, pixel_data };
        assert(r@.file_meta =~= self@.file_meta);
        assert(r@.elements =~= self@.elements);
        r
    }
}

} // verus!
