use std::collections::HashSet;
use crate::paths::{
    contains_seq, file_name, file_name_of, join, join_of, lemma_file_name_shorter, occurs_at,
    remove_all, remove_occurrences, same_text, stem_of, with_txt_extension,
};
use vstd::prelude::*;

verus! {

broadcast use vstd::std_specs::hash::group_hash_axioms;

/// A keyboard key, identified by its code.
pub type KeyCode = u32;

/// An opaque RGB color (alpha is always full).
#[derive(Clone, Copy, Debug, PartialEq, Eq, Structural)]
pub struct LabelColor {
    pub r: u8,
    pub g: u8,
    pub b: u8,
}

/// The color of palette entry `k` (`0 <= k < 13`).
pub open spec fn palette(k: int) -> LabelColor {
    if k == 0 {
        LabelColor { r: 0x2f, g: 0x4f, b: 0x4f }
    } else if k == 1 {
        LabelColor { r: 0x8b, g: 0x45, b: 0x13 }
    } else if k == 2 {
        LabelColor { r: 0x00, g: 0x80, b: 0x00 }
    } else if k == 3 {
        LabelColor { r: 0x4b, g: 0x00, b: 0x82 }
    } else if k == 4 {
        LabelColor { r: 0xff, g: 0x00, b: 0x00 }
    } else if k == 5 {
        LabelColor { r: 0xff, g: 0xff, b: 0x00 }
    } else if k == 6 {
        LabelColor { r: 0x00, g: 0xff, b: 0x00 }
    } else if k == 7 {
        LabelColor { r: 0x00, g: 0xff, b: 0xff }
    } else if k == 8 {
        LabelColor { r: 0x00, g: 0x00, b: 0xff }
    } else if k == 9 {
        LabelColor { r: 0xff, g: 0x00, b: 0xff }
    } else if k == 10 {
        LabelColor { r: 0x64, g: 0x95, b: 0xed }
    } else if k == 11 {
        LabelColor { r: 0xff, g: 0xda, b: 0xb9 }
    } else {
        LabelColor { r: 0xff, g: 0x69, b: 0xb6 }
    }
}

pub open spec fn color_of_class(i: int) -> LabelColor {
    palette(i % 13)
}

/// How one label class is written in a label configuration: its name and
/// the keys that select it.
#[derive(Clone)]
pub struct DynLabelSpec {
    pub keys: Vec<KeyCode>,
    pub name: String,
}

/// A label class of a configuration, resolved to its index and color.
pub struct DynLabel {
    pub i: usize,
    pub name: String,
    pub color: LabelColor,
    pub keys: Vec<KeyCode>,
}

/// `l` is the label that class `i`, written as `spec`, resolves to.
pub open spec fn resolves_to(spec: DynLabelSpec, i: int, l: DynLabel) -> bool {
    &&& l.i == i
    &&& l.name@ == spec.name@
    &&& l.color == color_of_class(i)
    &&& l.keys@ == spec.keys@
}

/// Every key that selects a label is among the pressed keys.
pub open spec fn keys_pressed(keys: Seq<KeyCode>, pressed: Set<KeyCode>) -> bool {
    forall|k: KeyCode| keys.contains(k) ==> pressed.contains(k)
}

impl DynLabelSpec {
    pub fn into_label(self, i: usize, color: LabelColor) -> (l: DynLabel)
        ensures
            l.i == i,
            l.name@ == self.name@,
            l.color == color,
            l.keys@ == self.keys@,
    {
        DynLabel { i, name: self.name, color, keys: self.keys }
    }

    fn duplicate(&self) -> (c: DynLabelSpec)
        ensures
            c.name@ == self.name@,
            c.keys@ == self.keys@,
    {
        DynLabelSpec { keys: self.keys.clone(), name: self.name.clone() }
    }
}

/// The label classes of a dataset, in the order of their class numbers.
#[derive(Clone)]
pub struct DynLabelConfig {
    labels: Vec<DynLabelSpec>,
}

impl View for DynLabelConfig {
    type V = Seq<DynLabelSpec>;

    closed spec fn view(&self) -> Seq<DynLabelSpec> {
        self.labels@
    }
}

impl DynLabelConfig {
    pub fn new(labels: Vec<DynLabelSpec>) -> (c: DynLabelConfig)
        ensures
            c@ == labels@,
    {
        DynLabelConfig { labels }
    }

    /// The display color of class `i`: the palette repeats every 13 classes.
    pub fn color_for(&self, i: usize) -> (c: LabelColor)
        ensures
            c == color_of_class(i as int),
    {
        let k = i % 13;
        if k == 0 {
            LabelColor { r: 0x2f, g: 0x4f, b: 0x4f }
        } else if k == 1 {
            LabelColor { r: 0x8b, g: 0x45, b: 0x13 }
        } else if k == 2 {
            LabelColor { r: 0x00, g: 0x80, b: 0x00 }
        } else if k == 3 {
            LabelColor { r: 0x4b, g: 0x00, b: 0x82 }
        } else if k == 4 {
            LabelColor { r: 0xff, g: 0x00, b: 0x00 }
        } else if k == 5 {
            LabelColor { r: 0xff, g: 0xff, b: 0x00 }
        } else if k == 6 {
            LabelColor { r: 0x00, g: 0xff, b: 0x00 }
        } else if k == 7 {
            LabelColor { r: 0x00, g: 0xff, b: 0xff }
        } else if k == 8 {
            LabelColor { r: 0x00, g: 0x00, b: 0xff }
        } else if k == 9 {
            LabelColor { r: 0xff, g: 0x00, b: 0xff }
        } else if k == 10 {
            LabelColor { r: 0x64, g: 0x95, b: 0xed }
        } else if k == 11 {
            LabelColor { r: 0xff, g: 0xda, b: 0xb9 }
        } else {
            LabelColor { r: 0xff, g: 0x69, b: 0xb6 }
        }
    }

    /// The label of class `i`, if the configuration has that class.
    pub fn label_from_usize(&self, i: usize) -> (r: Option<DynLabel>)
        ensures
            r is Some <==> i < self@.len(),
            r matches Some(l) ==> resolves_to(self@[i as int], i as int, l),
    {
        if i < self.labels.len() {
            let spec = self.labels[i].duplicate();
            let color = self.color_for(i);
            Some(spec.into_label(i, color))
        } else {
            None
        }
    }

    pub fn num_labels(&self) -> (n: usize)
        ensures
            n == self@.len(),
    {
        self.labels.len()
    }

    /// The first label (by class number) whose keys are all pressed.
    pub fn label_from_keys(&self, keys: &HashSet<KeyCode>) -> (r: Option<DynLabel>)
        ensures
            r is None <==> forall|j: int|
                0 <= j < self@.len() ==> !keys_pressed(#[trigger] self@[j].keys@, keys@),
            r matches Some(l) ==> {
                &&& l.i < self@.len()
                &&& keys_pressed(self@[l.i as int].keys@, keys@)
                &&& forall|j: int| 0 <= j < l.i ==> !keys_pressed(#[trigger] self@[j].keys@, keys@)
                &&& resolves_to(self@[l.i as int], l.i as int, l)
            },
    {
        let n = self.labels.len();
        let mut i: usize = 0;
        while i < n
            invariant
                n == self@.len(),
                i <= n,
                forall|j: int| 0 <= j < i ==> !keys_pressed(#[trigger] self@[j].keys@, keys@),
            decreases n - i,
        {
            let spec_keys = &self.labels[i].keys;
            let mut all = true;
            let mut k: usize = 0;
            while k < spec_keys.len()
                invariant
                    k <= spec_keys.len(),
                    all <==> forall|m: int| 0 <= m < k ==> keys@.contains(#[trigger] spec_keys@[m]),
                decreases spec_keys.len() - k,
            {
                if !keys.contains(&spec_keys[k]) {
                    all = false;
                }
                k = k + 1;
            }
            assert(all <==> keys_pressed(self@[i as int].keys@, keys@));
            if all {
                return self.label_from_usize(i);
            }
            i = i + 1;
        }
        None
    }
}

} // verus!

verus! {

/// The paths of one datapoint: the image file name, and the directory and
/// file name of its label file.
pub struct LabelPaths {
    pub img: Seq<char>,
    pub label_dir: Seq<char>,
    pub label_name: Seq<char>,
}

/// An image and the file that holds its labels.
pub struct LabelOnDisk {
    img_src: String,
    label_dir: String,
    label_name: String,
}

impl View for LabelOnDisk {
    type V = LabelPaths;

    closed spec fn view(&self) -> LabelPaths {
        LabelPaths { img: self.img_src@, label_dir: self.label_dir@, label_name: self.label_name@ }
    }
}

/// The label file name that belongs to an image file name.
pub open spec fn label_name_for(img: Seq<char>) -> Seq<char> {
    stem_of(img) + seq!['.', 't', 'x', 't']
}

impl LabelOnDisk {
    /// The datapoint of the image at `img_path`, whose labels live in
    /// `labels_dir` under the image's name with the extension `txt`.
    pub fn new(img_path: &str, labels_dir: &str) -> (r: LabelOnDisk)
        requires
            file_name_of(img_path@) is Some,
            img_path@.len() < i64::MAX,
        ensures
            r@.img == file_name_of(img_path@).unwrap(),
            r@.label_dir == labels_dir@,
            r@.label_name == label_name_for(r@.img),
    {
        let img_src = match file_name(img_path) {
            Some(n) => n,
            None => String::new(),
        };
        proof {
            lemma_file_name_shorter(img_path@);
        }
        let label_name = with_txt_extension(img_src.as_str());
        LabelOnDisk { img_src, label_dir: String::from_str(labels_dir), label_name }
    }

    /// The image file (its name only).
    pub fn img_src(&self) -> (r: &str)
        ensures
            r@ == self@.img,
    {
        self.img_src.as_str()
    }

    /// The full path of the label file.
    pub fn label_src(&self) -> (r: String)
        ensures
            r@ == join_of(self@.label_dir, self@.label_name),
    {
        join(self.label_dir.as_str(), self.label_name.as_str())
    }

    pub fn img_name(&self) -> (r: &str)
        ensures
            r@ == self@.img,
    {
        self.img_src.as_str()
    }

    pub fn label_name(&self) -> (r: &str)
        ensures
            r@ == self@.label_name,
    {
        self.label_name.as_str()
    }

    /// The same datapoint with every occurrence of `old_prefix` deleted from
    /// the label file name.
    pub fn remove_prefix(&self, old_prefix: &str) -> (r: LabelOnDisk)
        ensures
            r@.img == self@.img,
            r@.label_dir == self@.label_dir,
            r@.label_name == remove_all(self@.label_name, old_prefix@),
    {
        LabelOnDisk {
            img_src: self.img_src.clone(),
            label_dir: self.label_dir.clone(),
            label_name: remove_occurrences(self.label_name.as_str(), old_prefix),
        }
    }

    /// The same datapoint with `new_prefix` put in front of the label file name.
    pub fn add_prefix(&self, new_prefix: &str) -> (r: LabelOnDisk)
        ensures
            r@.img == self@.img,
            r@.label_dir == self@.label_dir,
            r@.label_name == new_prefix@ + self@.label_name,
    {
        let mut name = String::from_str(new_prefix);
        name.append(self.label_name.as_str());
        LabelOnDisk { img_src: self.img_src.clone(), label_dir: self.label_dir.clone(), label_name: name }
    }
}

} // verus!

verus! {

/// The characters of each string.
pub open spec fn views(v: Seq<String>) -> Seq<Seq<char>> {
    v.map_values(|s: String| s@)
}

/// The order in which `alphanumeric_sort::sort_str_slice` leaves a list of
/// strings.
pub uninterp spec fn alphanumeric_order(items: Seq<Seq<char>>) -> Seq<Seq<char>>;

/// Sorts with `alphanumeric_sort::sort_str_slice`: digit runs compare by their
/// numeric value. The result is the crate's order of the input, and holds the
/// same strings as the input.
#[verifier::external_body]
fn sort_alphanumeric(items: &mut Vec<String>)
    ensures
        views(final(items)@) == alphanumeric_order(views(old(items)@)),
        views(final(items)@).to_multiset() == views(old(items)@).to_multiset(),
{
    alphanumeric_sort::sort_str_slice(items.as_mut_slice());
}

/// Why a dataset cannot be built.
#[derive(Clone, Copy, Debug, PartialEq, Eq, Structural)]
pub enum DatasetError {
    /// There is no image in the input directory.
    Empty,
}

/// Where to move in a dataset.
#[derive(Debug)]
pub enum DatasetMovement {
    Next,
    Previous,
    /// To the next image whose labels hold one of the classes.
    NextContaining(HashSet<usize>),
    /// To the previous image whose labels hold one of the classes.
    PreviousContaining(HashSet<usize>),
    JumpTo(usize),
}

/// What remains to be done after `Dataset::go`: nothing, or a search for an
/// image with one of the classes, stepping forward or backward.
#[derive(Clone, Copy, Debug, PartialEq, Eq, Structural)]
pub enum PendingSearch {
    Done,
    Forward,
    Backward,
}

impl DatasetMovement {
    /// The movement that the arrow keys ask for: none unless exactly one of
    /// them is pressed; with a set of shown classes, a search for them.
    pub fn from_keys(
        next_pressed: bool,
        previous_pressed: bool,
        shown_classes: Option<HashSet<usize>>,
    ) -> (r: Option<DatasetMovement>)
        ensures
            next_pressed == previous_pressed ==> r is None,
            next_pressed && !previous_pressed ==> match shown_classes {
                None => r matches Some(DatasetMovement::Next),
                Some(c) => r matches Some(DatasetMovement::NextContaining(d)) && d@ == c@,
            },
            !next_pressed && previous_pressed ==> match shown_classes {
                None => r matches Some(DatasetMovement::Previous),
                Some(c) => r matches Some(DatasetMovement::PreviousContaining(d)) && d@ == c@,
            },
    {
        if next_pressed == previous_pressed {
            None
        } else if next_pressed {
            match shown_classes {
                None => Some(DatasetMovement::Next),
                Some(c) => Some(DatasetMovement::NextContaining(c)),
            }
        } else {
            match shown_classes {
                None => Some(DatasetMovement::Previous),
                Some(c) => Some(DatasetMovement::PreviousContaining(c)),
            }
        }
    }
}

/// Whether a label holds a box of one of the classes.
pub fn contains_any_class(label_classes: &Vec<usize>, classes: &HashSet<usize>) -> (r: bool)
    ensures
        r == exists|k: int| 0 <= k < label_classes@.len() && classes@.contains(#[trigger] label_classes@[k]),
{
    let mut k: usize = 0;
    while k < label_classes.len()
        invariant
            k <= label_classes@.len(),
            forall|m: int| 0 <= m < k ==> !classes@.contains(#[trigger] label_classes@[m]),
        decreases label_classes@.len() - k,
    {
        if classes.contains(&label_classes[k]) {
            return true;
        }
        k = k + 1;
    }
    false
}

/// `k - d`, or 0 where that is negative.
pub open spec fn saturating_back(k: int, d: int) -> int {
    if k >= d {
        k - d
    } else {
        0
    }
}

/// The position after moving on from `i` among `len` datapoints: the next
/// one, or the last one.
pub open spec fn next_position(i: int, len: int) -> int {
    if i + 1 < len {
        i + 1
    } else {
        len - 1
    }
}

/// The position after jumping to `pos` among `len` datapoints: `pos`, or the
/// last one when `pos` is past the end.
pub open spec fn jump_position(pos: int, len: int) -> int {
    if pos < len {
        pos
    } else {
        len - 1
    }
}

/// The paths of each datapoint.
pub open spec fn paths_of(data: Seq<LabelOnDisk>) -> Seq<LabelPaths> {
    data.map_values(|p: LabelOnDisk| p@)
}

/// The first index in `data` whose label file name is not among `existing`,
/// or 0 when there is none.
pub open spec fn first_unlabeled(data: Seq<LabelPaths>, existing: Seq<Seq<char>>) -> int {
    if exists|k: int| 0 <= k < data.len() && !existing.contains(#[trigger] data[k].label_name) {
        choose|k: int|
            0 <= k < data.len() && !existing.contains(#[trigger] data[k].label_name) && forall|m: int|
                0 <= m < k ==> existing.contains(#[trigger] data[m].label_name)
    } else {
        0
    }
}

/// The datapoints of the files at `paths`, sorted alphanumerically, whose
/// labels live in `labels_dir`.
pub fn sorted_datapoints(labels_dir: &str, image_paths: Vec<String>) -> (data: Vec<LabelOnDisk>)
    requires
        forall|k: int|
            0 <= k < image_paths@.len() ==> file_name_of(#[trigger] image_paths@[k]@) is Some
                && image_paths@[k]@.len() < i64::MAX,
    ensures
        data@.len() == image_paths@.len(),
        forall|k: int|
            0 <= k < data@.len() ==> {
                &&& (#[trigger] data@[k])@.img == file_name_of(
                    alphanumeric_order(views(image_paths@))[k],
                ).unwrap()
                &&& data@[k]@.label_dir == labels_dir@
                &&& data@[k]@.label_name == label_name_for(data@[k]@.img)
            },
{
        let mut paths = image_paths;
        let ghost unsorted = views(paths@);
        sort_alphanumeric(&mut paths);
        let ghost sorted = views(paths@);
        assert forall|k: int| 0 <= k < paths@.len() implies file_name_of(#[trigger] paths@[k]@) is Some
            && paths@[k]@.len() < i64::MAX by {
            assert(sorted[k] == paths@[k]@);
            assert(sorted.to_multiset().count(sorted[k]) > 0) by {
                sorted.to_multiset_ensures();
                assert(sorted.contains(sorted[k]));
            }
            unsorted.to_multiset_ensures();
            sorted.to_multiset_ensures();
            assert(unsorted.contains(sorted[k]));
            let j = choose|j: int| 0 <= j < unsorted.len() && unsorted[j] == sorted[k];
            assert(unsorted[j] == image_paths@[j]@);
        }
        let n = paths.len();
        proof {
            sorted.to_multiset_ensures();
            unsorted.to_multiset_ensures();
            assert(sorted.len() == paths@.len());
            assert(unsorted.len() == image_paths@.len());
        }
        let mut data: Vec<LabelOnDisk> = Vec::new();
        let mut k: usize = 0;
        while k < n
            invariant
                n == paths@.len(),
                sorted == views(paths@),
                k <= n,
                data@.len() == k,
                forall|j: int| 0 <= j < n ==> file_name_of(#[trigger] paths@[j]@) is Some
                    && paths@[j]@.len() < i64::MAX,
                forall|j: int|
                    0 <= j < k ==> {
                        &&& (#[trigger] data@[j])@.img == file_name_of(sorted[j]).unwrap()
                        &&& data@[j]@.label_dir == labels_dir@
                        &&& data@[j]@.label_name == label_name_for(data@[j]@.img)
                    },
            decreases n - k,
        {
            let p = LabelOnDisk::new(paths[k].as_str(), labels_dir);
            data.push(p);
            k = k + 1;
        }
        data
}

/// What `Dataset::from_input_dir` gives for the image paths
/// `image_paths` and the label files `existing` of `labels_dir`: an error
/// exactly when there is no image; else the images sorted alphanumerically,
/// each with its label file in `labels_dir`, starting at the first image
/// without a label file (or at the first image).
pub open spec fn input_dir_outcome(
    r: Result<Dataset, DatasetError>,
    labels_dir: Seq<char>,
    image_paths: Seq<Seq<char>>,
    existing: Seq<Seq<char>>,
) -> bool {
    &&& (image_paths.len() == 0 <==> r is Err)
    &&& r matches Ok(d) ==> {
        &&& d.wf()
        &&& d.points().len() == image_paths.len()
        &&& forall|k: int|
            0 <= k < d.points().len() ==> {
                &&& (#[trigger] d.points()[k])@.img == file_name_of(alphanumeric_order(image_paths)[k]).unwrap()
                &&& d.points()[k]@.label_dir == labels_dir
                &&& d.points()[k]@.label_name == label_name_for(d.points()[k]@.img)
            }
        &&& d.position() == first_unlabeled(paths_of(d.points()), existing)
    }
}

/// What `Dataset::with_prefix` gives: as `input_dir_outcome`, with `prefix`
/// in front of every label file name, the start chosen by the names without
/// it.
pub open spec fn prefixed_outcome(
    r: Result<Dataset, DatasetError>,
    labels_dir: Seq<char>,
    image_paths: Seq<Seq<char>>,
    existing: Seq<Seq<char>>,
    prefix: Seq<char>,
) -> bool {
    &&& (image_paths.len() == 0 <==> r is Err)
    &&& r matches Ok(d) ==> {
        &&& d.wf()
        &&& d.points().len() == image_paths.len()
        &&& forall|k: int|
            0 <= k < d.points().len() ==> {
                &&& (#[trigger] d.points()[k])@.img == file_name_of(alphanumeric_order(image_paths)[k]).unwrap()
                &&& d.points()[k]@.label_dir == labels_dir
                &&& d.points()[k]@.label_name == prefix + label_name_for(d.points()[k]@.img)
            }
        &&& d.position() == first_unlabeled(unprefixed(d.points(), prefix), existing)
    }
}

/// The images of a directory in alphanumeric order, and the position of the
/// one being worked on.
pub struct Dataset {
    data: Vec<LabelOnDisk>,
    i: usize,
}

impl Dataset {
    pub closed spec fn wf(&self) -> bool {
        0 < self.data@.len() && self.i < self.data@.len()
    }

    /// The datapoints, in order.
    pub closed spec fn points(&self) -> Seq<LabelOnDisk> {
        self.data@
    }

    /// The position of the current datapoint.
    pub closed spec fn position(&self) -> int {
        self.i as int
    }

    /// A well-formed dataset has images, and its position is one of them.
    pub proof fn lemma_wf_bounds(&self)
        requires
            self.wf(),
        ensures
            0 <= self.position() < self.points().len(),
    {
    }

    /// The dataset of the images at `image_paths`, sorted alphanumerically,
    /// whose labels live in `labels_dir`. It starts at the first image whose
    /// label file name is not among `existing_label_files` (the names of the
    /// files in `labels_dir`), or at the first image when all are labeled.
    pub fn from_input_dir(
        labels_dir: &str,
        image_paths: Vec<String>,
        existing_label_files: &Vec<String>,
    ) -> (r: Result<Dataset, DatasetError>)
        requires
            forall|k: int|
                0 <= k < image_paths@.len() ==> file_name_of(#[trigger] image_paths@[k]@) is Some
                    && image_paths@[k]@.len() < i64::MAX,
        ensures
            input_dir_outcome(r, labels_dir@, views(image_paths@), views(existing_label_files@)),
    {
        let data = sorted_datapoints(labels_dir, image_paths);
        if data.len() == 0 {
            return Err(DatasetError::Empty);
        }
        let mut d = Dataset { data, i: 0 };
        d.start_at_first_unlabeled(existing_label_files);
        Ok(d)
    }

    /// Moves to the first datapoint whose label file name is not among
    /// `existing_label_files`, or to the first datapoint.
    fn start_at_first_unlabeled(&mut self, existing_label_files: &Vec<String>)
        requires
            old(self).wf(),
        ensures
            final(self).wf(),
            final(self).points() == old(self).points(),
            final(self).position() == first_unlabeled(
                paths_of(old(self).points()),
                views(existing_label_files@),
            ),
    {
        let ghost existing = views(existing_label_files@);
        let ghost paths = paths_of(self.data@);
        let n = self.data.len();
        let mut k: usize = 0;
        while k < n
            invariant
                n == self.data@.len(),
                self.data@ == old(self).data@,
                0 < n,
                self.i < n,
                k <= n,
                existing == views(existing_label_files@),
                paths == paths_of(self.data@),
                forall|m: int| 0 <= m < k ==> existing.contains(#[trigger] paths[m].label_name),
            decreases n - k,
        {
            if !name_listed(existing_label_files, self.data[k].label_name.as_str()) {
                proof {
                    let w = k as int;
                    assert(0 <= w < paths.len() && !existing.contains(paths[w].label_name));
                    let c = choose|c: int|
                        0 <= c < paths.len() && !existing.contains(#[trigger] paths[c].label_name)
                            && forall|m: int| 0 <= m < c ==> existing.contains(#[trigger] paths[m].label_name);
                    assert(c == w) by {
                        if c < w {
                            assert(existing.contains(paths[c].label_name));
                        } else if c > w {
                            assert(existing.contains(paths[w].label_name));
                        }
                    }
                }
                self.i = k;
                return;
            }
            k = k + 1;
        }
        assert(!exists|c: int| 0 <= c < paths.len() && !existing.contains(#[trigger] paths[c].label_name));
        self.i = 0;
    }
}

impl Dataset {
    /// The dataset of `from_input_dir`, whose label file names then get
    /// `prefix` in front.
    pub fn with_prefix(
        labels_dir: &str,
        image_paths: Vec<String>,
        existing_label_files: &Vec<String>,
        prefix: &str,
    ) -> (r: Result<Dataset, DatasetError>)
        requires
            forall|k: int|
                0 <= k < image_paths@.len() ==> file_name_of(#[trigger] image_paths@[k]@) is Some
                    && image_paths@[k]@.len() < i64::MAX,
        ensures
            prefixed_outcome(r, labels_dir@, views(image_paths@), views(existing_label_files@), prefix@),
    {
        let dataset = Dataset::from_input_dir(labels_dir, image_paths, existing_label_files);
        match dataset {
            Err(e) => Err(e),
            Ok(d) => {
                let ghost before = d.data@;
                let n = d.data.len();
                let mut data: Vec<LabelOnDisk> = Vec::new();
                let mut k: usize = 0;
                while k < n
                    invariant
                        n == d.data@.len(),
                        before == d.data@,
                        k <= n,
                        data@.len() == k,
                        forall|j: int|
                            0 <= j < k ==> {
                                &&& (#[trigger] data@[j])@.img == before[j]@.img
                                &&& data@[j]@.label_dir == before[j]@.label_dir
                                &&& data@[j]@.label_name == prefix@ + before[j]@.label_name
                            },
                    decreases n - k,
                {
                    data.push(d.data[k].add_prefix(prefix));
                    k = k + 1;
                }
                let r = Dataset { data, i: d.i };
                proof {
                    let u = unprefixed(r.data@, prefix@);
                    assert forall|j: int| 0 <= j < u.len() implies #[trigger] u[j] == paths_of(before)[j] by {
                        assert(r.data@[j]@.label_name.skip(prefix@.len() as int) =~= before[j]@.label_name);
                    }
                    assert(u =~= paths_of(before));
                }
                Ok(r)
            },
        }
    }

    /// The current datapoint.
    pub fn current(&self) -> (r: &LabelOnDisk)
        requires
            self.wf(),
        ensures
            *r == self.points()[self.position()],
    {
        &self.data[self.i]
    }

    /// All datapoints, in order.
    pub fn iter_data(&self) -> (r: &[LabelOnDisk])
        ensures
            r@ == self.points(),
    {
        self.data.as_slice()
    }

    /// (start, current position, number of images).
    pub fn get_progress(&self) -> (r: (usize, usize, usize))
        ensures
            r.0 == 0,
            r.1 == self.position(),
            r.2 == self.points().len(),
    {
        (0, self.i, self.data.len())
    }

    /// The file name of the current image.
    pub fn current_name(&self) -> (r: &str)
        requires
            self.wf(),
        ensures
            r@ == self.points()[self.position()]@.img,
    {
        self.data[self.i].img_name()
    }

    /// The path of the current image (its file name).
    pub fn current_img_path(&self) -> (r: &str)
        requires
            self.wf(),
        ensures
            r@ == self.points()[self.position()]@.img,
    {
        self.data[self.i].img_src()
    }

    /// The `file://` address of the current image.
    pub fn current_img_uri(&self) -> (r: String)
        requires
            self.wf(),
        ensures
            r@ == seq!['f', 'i', 'l', 'e', ':', '/', '/'] + self.points()[self.position()]@.img,
    {
        let mut uri = String::from_str("file://");
        uri.append(self.data[self.i].img_src());
        proof {
            reveal_strlit("file://");
        }
        assert(uri@ =~= seq!['f', 'i', 'l', 'e', ':', '/', '/'] + self.points()[self.position()]@.img);
        uri
    }

    /// The positions of the `num` datapoints before the current one, nearest
    /// first; positions before the start stay at the start.
    pub fn previous_label_positions(&self, num: usize) -> (r: Vec<usize>)
        ensures
            r@.len() == num,
            forall|k: int| 0 <= k < num ==> #[trigger] r@[k] == saturating_back(self.position(), k + 1),
    {
        let mut r: Vec<usize> = Vec::new();
        let mut k: usize = 0;
        while k < num
            invariant
                k <= num,
                r@.len() == k,
                forall|j: int| 0 <= j < k ==> #[trigger] r@[j] == saturating_back(self.i as int, j + 1),
            decreases num - k,
        {
            let previous = if self.i > k { self.i - (k + 1) } else { 0 };
            r.push(previous);
            k = k + 1;
        }
        r
    }

    /// The current datapoint and the `num` before it, nearest first;
    /// positions before the start stay at the start.
    pub fn previous_datapoints(&self, num: usize) -> (r: Vec<&LabelOnDisk>)
        requires
            self.wf(),
            num < usize::MAX,
        ensures
            r@.len() == num + 1,
            forall|k: int|
                0 <= k <= num ==> *#[trigger] r@[k] == self.points()[saturating_back(self.position(), k)],
    {
        let mut r: Vec<&LabelOnDisk> = Vec::new();
        let mut back: usize = 0;
        while back <= num
            invariant
                0 < self.data@.len(),
                self.i < self.data@.len(),
                num < usize::MAX,
                back <= num + 1,
                r@.len() == back,
                forall|k: int|
                    0 <= k < back ==> *#[trigger] r@[k] == self.data@[saturating_back(self.i as int, k)],
            decreases num + 1 - back,
        {
            let previous = if self.i >= back { self.i - back } else { 0 };
            r.push(&self.data[previous]);
            back = back + 1;
        }
        r
    }

    fn next(&mut self)
        requires
            old(self).wf(),
        ensures
            final(self).wf(),
            final(self).points() == old(self).points(),
            final(self).position() == next_position(old(self).position(), old(self).points().len() as int),
    {
        if self.i < self.data.len() - 1 {
            self.i = self.i + 1;
        } else {
            self.i = self.data.len() - 1;
        }
    }

    fn previous(&mut self)
        requires
            old(self).wf(),
        ensures
            final(self).wf(),
            final(self).points() == old(self).points(),
            final(self).position() == saturating_back(old(self).position(), 1),
    {
        if self.i > 0 {
            self.i = self.i - 1;
        }
    }

    fn go_to(&mut self, pos: usize)
        requires
            old(self).wf(),
        ensures
            final(self).wf(),
            final(self).points() == old(self).points(),
            final(self).position() == jump_position(pos as int, old(self).points().len() as int),
    {
        if pos < self.data.len() {
            self.i = pos;
        } else {
            self.i = self.data.len() - 1;
        }
    }

    /// One step of a search for an image with given classes. `hit_here`
    /// says whether the image the search has just reached holds one of the
    /// classes (false before the first step). The search stops there on a
    /// hit, or when it cannot move further (past the last image forward, the
    /// first backward); otherwise it moves one image on. Says whether it
    /// stopped.
    pub fn search_step(&mut self, forward: bool, hit_here: bool) -> (stop: bool)
        requires
            old(self).wf(),
        ensures
            final(self).wf(),
            final(self).points() == old(self).points(),
            stop == (hit_here || !search_moves(
                old(self).position(),
                old(self).points().len() as int,
                forward,
            )),
            final(self).position() == if stop {
                old(self).position()
            } else {
                search_next(old(self).position(), forward)
            },
    {
        if hit_here {
            return true;
        }
        if forward {
            if self.i < self.data.len() - 1 {
                self.i = self.i + 1;
                false
            } else {
                true
            }
        } else {
            if self.i > 0 {
                self.i = self.i - 1;
                false
            } else {
                true
            }
        }
    }

    /// Moves as `movement` says. Next and previous stop at the ends; a jump
    /// past the end lands on the last image. A search for classes is left
    /// pending: it reads label files, so the caller runs it with
    /// `search_step` and `contains_any_class`; where it lands is
    /// `search_run` (see `law_search_lands_on_nearest_hit`).
    pub fn go(&mut self, movement: &DatasetMovement) -> (r: PendingSearch)
        requires
            old(self).wf(),
        ensures
            final(self).wf(),
            final(self).points() == old(self).points(),
            match *movement {
                DatasetMovement::Next => r == PendingSearch::Done && final(self).position()
                    == next_position(old(self).position(), old(self).points().len() as int),
                DatasetMovement::Previous => r == PendingSearch::Done && final(self).position()
                    == saturating_back(old(self).position(), 1),
                DatasetMovement::JumpTo(pos) => r == PendingSearch::Done && final(self).position()
                    == jump_position(pos as int, old(self).points().len() as int),
                DatasetMovement::NextContaining(_) => r == PendingSearch::Forward
                    && final(self).position() == old(self).position(),
                DatasetMovement::PreviousContaining(_) => r == PendingSearch::Backward
                    && final(self).position() == old(self).position(),
            },
    {
        match movement {
            DatasetMovement::Next => {
                self.next();
                PendingSearch::Done
            },
            DatasetMovement::Previous => {
                self.previous();
                PendingSearch::Done
            },
            DatasetMovement::JumpTo(pos) => {
                self.go_to(*pos);
                PendingSearch::Done
            },
            DatasetMovement::NextContaining(_) => PendingSearch::Forward,
            DatasetMovement::PreviousContaining(_) => PendingSearch::Backward,
        }
    }
}

/// The datapoints with `prefix` taken off the front of their label file names.
pub open spec fn unprefixed(data: Seq<LabelOnDisk>, prefix: Seq<char>) -> Seq<LabelPaths> {
    data.map_values(
        |p: LabelOnDisk|
            LabelPaths {
                img: p@.img,
                label_dir: p@.label_dir,
                label_name: p@.label_name.skip(prefix.len() as int),
            },
    )
}

/// Whether `name` is one of `names`.
fn name_listed(names: &Vec<String>, name: &str) -> (r: bool)
    ensures
        r == views(names@).contains(name@),
{
    let mut e: usize = 0;
    while e < names.len()
        invariant
            e <= names@.len(),
            forall|f: int| 0 <= f < e ==> names@[f]@ != name@,
        decreases names@.len() - e,
    {
        if same_text(names[e].as_str(), name) {
            assert(views(names@)[e as int] == name@);
            return true;
        }
        e = e + 1;
    }
    assert forall|f: int| 0 <= f < views(names@).len() implies views(names@)[f] != name@ by {
        assert(views(names@)[f] == names@[f]@);
    }
    false
}


/// Moving on and then back returns to the same image, except from the last
/// image, where moving on stays put.
pub proof fn law_next_then_previous(i: int, len: int)
    requires
        0 <= i < len,
    ensures
        i < len - 1 ==> saturating_back(next_position(i, len), 1) == i,
        i == len - 1 ==> next_position(i, len) == i,
{
}

/// Moving back and then on returns to the same image, except from the first
/// image, where moving back stays put.
pub proof fn law_previous_then_next(i: int, len: int)
    requires
        0 <= i < len,
    ensures
        i > 0 ==> next_position(saturating_back(i, 1), len) == i,
        i == 0 ==> saturating_back(i, 1) == 0,
{
}

/// Every movement lands on an image of the dataset, and a jump to a
/// position that exists lands there.
pub proof fn law_movements_stay_in_dataset(i: int, pos: int, len: int)
    requires
        0 <= i < len,
        0 <= pos,
    ensures
        0 <= next_position(i, len) < len,
        0 <= saturating_back(i, 1) < len,
        0 <= jump_position(pos, len) < len,
        pos < len ==> jump_position(pos, len) == pos,
{
}

/// Without occurrences of `p` in `s`, deleting the occurrences of `p`
/// leaves `s` as it is.
pub proof fn lemma_remove_all_absent(s: Seq<char>, p: Seq<char>)
    requires
        !contains_seq(s, p),
    ensures
        remove_all(s, p) == s,
    decreases s.len(),
{
    if p.len() > 0 && s.len() > 0 {
        assert(!occurs_at(s, p, 0));
        let t = s.skip(1);
        assert(!contains_seq(t, p)) by {
            if contains_seq(t, p) {
                let i = choose|i: int| occurs_at(t, p, i);
                assert(s.subrange(i + 1, i + 1 + p.len()) =~= t.subrange(i, i + p.len()));
                assert(occurs_at(s, p, i + 1));
            }
        }
        lemma_remove_all_absent(t, p);
        assert(seq![s[0]] + t =~= s);
    }
}

/// Taking off a prefix that was put on gives the label file back, when the
/// prefix does not occur in the name.
pub proof fn law_remove_prefix_undoes_add_prefix(name: Seq<char>, p: Seq<char>)
    requires
        !contains_seq(name, p),
    ensures
        remove_all(p + name, p) == name,
{
    if p.len() > 0 {
        let s = p + name;
        assert(s.subrange(0, p.len() as int) =~= p);
        assert(occurs_at(s, p, 0));
        assert(s.skip(p.len() as int) =~= name);
    } else {
        assert(p + name =~= name);
    }
    lemma_remove_all_absent(name, p);
}


/// Whether a search at `p` among `len` images can move on in its direction.
pub open spec fn search_moves(p: int, len: int, forward: bool) -> bool {
    if forward {
        p < len - 1
    } else {
        p > 0
    }
}

/// The image after `p` in the search's direction.
pub open spec fn search_next(p: int, forward: bool) -> int {
    if forward {
        p + 1
    } else {
        p - 1
    }
}

/// Where a search that repeats `search_step` stops, from position `p`, where
/// `hits[j]` says whether image `j` holds one of the wanted classes and
/// `hit_here` is what the last step was told.
pub open spec fn search_run(hits: Seq<bool>, p: int, forward: bool, hit_here: bool) -> int
    decreases (if forward {
        hits.len() - p
    } else {
        p
    }),
{
    if hit_here || !(0 <= p < hits.len()) || !search_moves(p, hits.len() as int, forward) {
        p
    } else {
        let q = search_next(p, forward);
        search_run(hits, q, forward, hits[q])
    }
}

/// Each `search_step` is one step of `search_run`: where it stops, the run
/// ends there; where it moves on, the run goes on from the image reached,
/// told whether that image is a hit.
pub proof fn law_search_step_follows_run(hits: Seq<bool>, p: int, forward: bool, hit_here: bool)
    requires
        0 <= p < hits.len(),
    ensures
        hit_here || !search_moves(p, hits.len() as int, forward) ==> search_run(
            hits,
            p,
            forward,
            hit_here,
        ) == p,
        !(hit_here || !search_moves(p, hits.len() as int, forward)) ==> search_run(
            hits,
            p,
            forward,
            hit_here,
        ) == search_run(hits, search_next(p, forward), forward, hits[search_next(p, forward)]),
{
}

/// From an image that was reached, the run stops at the first hit from there
/// on in its direction, or at the end.
proof fn lemma_search_run_reached(hits: Seq<bool>, p: int, forward: bool)
    requires
        0 <= p < hits.len(),
    ensures
        forward ==> {
            let r = search_run(hits, p, forward, hits[p]);
            &&& p <= r < hits.len()
            &&& forall|m: int| p <= m < r ==> !#[trigger] hits[m]
            &&& hits[r] || r == hits.len() - 1
        },
        !forward ==> {
            let r = search_run(hits, p, forward, hits[p]);
            &&& 0 <= r <= p
            &&& forall|m: int| r < m <= p ==> !#[trigger] hits[m]
            &&& hits[r] || r == 0
        },
    decreases (if forward {
        hits.len() - p
    } else {
        p
    }),
{
    if !hits[p] && search_moves(p, hits.len() as int, forward) {
        lemma_search_run_reached(hits, search_next(p, forward), forward);
    }
}

/// A search for classes lands on the nearest image in its direction that
/// holds one of them, and on the last image (forward) or the first image
/// (backward) when there is none; the images it passes hold none.
pub proof fn law_search_lands_on_nearest_hit(hits: Seq<bool>, i: int, forward: bool)
    requires
        0 <= i < hits.len(),
    ensures
        forward ==> {
            let r = search_run(hits, i, forward, false);
            &&& i <= r < hits.len()
            &&& forall|m: int| i < m < r ==> !#[trigger] hits[m]
            &&& (i < r && hits[r]) || r == hits.len() - 1
        },
        !forward ==> {
            let r = search_run(hits, i, forward, false);
            &&& 0 <= r <= i
            &&& forall|m: int| r < m < i ==> !#[trigger] hits[m]
            &&& (r < i && hits[r]) || r == 0
        },
{
    if search_moves(i, hits.len() as int, forward) {
        lemma_search_run_reached(hits, search_next(i, forward), forward);
    }
}

/// On a dataset: moving on and then back returns to the image, except from
/// the last one; moving back and then on returns to it, except from the
/// first one; a jump to the current position stays there, and a jump to any
/// position lands on it or on the last image.
pub proof fn law_dataset_moves_undo(d: Dataset, pos: int)
    requires
        d.wf(),
        0 <= pos,
    ensures
        d.position() + 1 < d.points().len() ==> saturating_back(
            next_position(d.position(), d.points().len() as int),
            1,
        ) == d.position(),
        d.position() > 0 ==> next_position(
            saturating_back(d.position(), 1),
            d.points().len() as int,
        ) == d.position(),
        jump_position(d.position(), d.points().len() as int) == d.position(),
        jump_position(pos, d.points().len() as int) == if pos < d.points().len() - 1 {
            pos
        } else {
            d.points().len() - 1
        },
{
    d.lemma_wf_bounds();
}


/// `with_prefix` gives the dataset of `from_input_dir` on the same
/// directory, with the prefix put in front of every label file name: an
/// error on the same inputs, else the same images in the same order, the
/// same label directory and the same start.
pub proof fn law_with_prefix_prefixes_input_dir(
    r0: Result<Dataset, DatasetError>,
    r: Result<Dataset, DatasetError>,
    labels_dir: Seq<char>,
    image_paths: Seq<Seq<char>>,
    existing: Seq<Seq<char>>,
    prefix: Seq<char>,
)
    requires
        input_dir_outcome(r0, labels_dir, image_paths, existing),
        prefixed_outcome(r, labels_dir, image_paths, existing, prefix),
    ensures
        r0 is Err <==> r is Err,
        r0 is Ok ==> {
            let d0 = r0->Ok_0;
            let d = r->Ok_0;
            &&& d.position() == d0.position()
            &&& d.points().len() == d0.points().len()
            &&& forall|k: int|
                0 <= k < d.points().len() ==> {
                    &&& (#[trigger] d.points()[k])@.img == d0.points()[k]@.img
                    &&& d.points()[k]@.label_dir == d0.points()[k]@.label_dir
                    &&& d.points()[k]@.label_name == prefix + d0.points()[k]@.label_name
                }
        },
{
    if r0 is Ok {
        let d0 = r0->Ok_0;
        let d = r->Ok_0;
        let u = unprefixed(d.points(), prefix);
        let q = paths_of(d0.points());
        assert forall|k: int| 0 <= k < u.len() implies #[trigger] u[k] == q[k] by {
            assert(d.points()[k]@.img == d0.points()[k]@.img);
            assert((prefix + label_name_for(d.points()[k]@.img)).skip(prefix.len() as int)
                =~= label_name_for(d.points()[k]@.img));
        }
        assert(u =~= q);
    }
}

} // verus!
