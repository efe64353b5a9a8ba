//! Free-text tags on images.
use vstd::prelude::*;

verus! {

/// One row of the tag table: an image and one of its tags.
pub struct TagEntry {
    pub image: String,
    pub tag: String,
}

/// The tags of the image being tagged, and the text being typed.
pub struct TaggingToolData {
    pub input: String,
    pub current_tags: Vec<String>,
}

/// The tagging tool: the tags of the current image and the last tag added.
pub struct Tagging {
    data: TaggingToolData,
    previous_tag: Option<String>,
}

pub open spec fn texts(v: Seq<String>) -> Seq<Seq<char>> {
    v.map_values(|s: String| s@)
}

/// The tags of the entries for `image`, in order.
pub open spec fn tags_of(entries: Seq<TagEntry>, image: Seq<char>) -> Seq<Seq<char>>
    decreases entries.len(),
{
    if entries.len() == 0 {
        seq![]
    } else {
        tags_of(entries.drop_last(), image) + if entries.last().image@ == image {
            seq![entries.last().tag@]
        } else {
            seq![]
        }
    }
}

/// The entries for other images than `image`, in order, as (image, tag).
pub open spec fn others_of(entries: Seq<TagEntry>, image: Seq<char>) -> Seq<(Seq<char>, Seq<char>)>
    decreases entries.len(),
{
    if entries.len() == 0 {
        seq![]
    } else {
        others_of(entries.drop_last(), image) + if entries.last().image@ != image {
            seq![(entries.last().image@, entries.last().tag@)]
        } else {
            seq![]
        }
    }
}

pub open spec fn entry_texts(entries: Seq<TagEntry>) -> Seq<(Seq<char>, Seq<char>)> {
    entries.map_values(|e: TagEntry| (e.image@, e.tag@))
}

impl TaggingToolData {
    pub fn new() -> (d: TaggingToolData)
        ensures
            d.input@ == Seq::<char>::empty(),
            d.current_tags@.len() == 0,
    {
        TaggingToolData { input: String::new(), current_tags: Vec::new() }
    }

    /// Removes the tag at `index`.
    pub fn remove_tag(&mut self, index: usize)
        requires
            index < old(self).current_tags@.len(),
        ensures
            final(self).input@ == old(self).input@,
            texts(final(self).current_tags@) == texts(old(self).current_tags@).remove(index as int),
    {
        self.current_tags.remove(index);
        assert(texts(self.current_tags@) =~= texts(old(self).current_tags@).remove(index as int));
    }

    /// Takes the tags of `image` from the table: they become the current
    /// tags; the rows of the other images are given back, in order, to be
    /// written back.
    pub fn load_tags(&mut self, records: Vec<TagEntry>, image: &str) -> (others: Vec<TagEntry>)
        ensures
            final(self).input@ == old(self).input@,
            texts(final(self).current_tags@) == tags_of(records@, image@),
            entry_texts(others@) == others_of(records@, image@),
            forall|k: int| 0 <= k < others@.len() ==> (#[trigger] others@[k]).image@ != image@,
    {
        self.current_tags = Vec::new();
        let wanted = String::from_str(image);
        let mut others: Vec<TagEntry> = Vec::new();
        let mut rest = records;
        let ghost all = rest@;
        let n = rest.len();
        let mut k: usize = 0;
        while k < n
            invariant
                n == all.len(),
                k <= n,
                rest@ == all.subrange(k as int, n as int),
                wanted@ == image@,
                self.input@ == old(self).input@,
                texts(self.current_tags@) == tags_of(all.subrange(0, k as int), image@),
                entry_texts(others@) == others_of(all.subrange(0, k as int), image@),
                forall|j: int| 0 <= j < others@.len() ==> (#[trigger] others@[j]).image@ != image@,
            decreases n - k,
        {
            let e = rest.remove(0);
            assert(e == all[k as int]);
            assert(all.subrange(0, k + 1).drop_last() =~= all.subrange(0, k as int));
            let ghost before_tags = texts(self.current_tags@);
            let ghost before_others = entry_texts(others@);
            if e.image == wanted {
                self.current_tags.push(e.tag);
                assert(texts(self.current_tags@) =~= before_tags + seq![all[k as int].tag@]);
            } else {
                others.push(e);
                assert(entry_texts(others@) =~= before_others + seq![
                    (all[k as int].image@, all[k as int].tag@),
                ]);
            }
            k = k + 1;
        }
        assert(all.subrange(0, n as int) =~= all);
        others
    }

    /// The rows that record the current tags of `image`.
    pub fn save_tags(&self, image: &str) -> (r: Vec<TagEntry>)
        ensures
            r@.len() == self.current_tags@.len(),
            forall|k: int|
                0 <= k < r@.len() ==> (#[trigger] r@[k]).image@ == image@ && r@[k].tag@
                    == self.current_tags@[k]@,
    {
        let mut r: Vec<TagEntry> = Vec::new();
        let mut k: usize = 0;
        while k < self.current_tags.len()
            invariant
                k <= self.current_tags@.len(),
                r@.len() == k,
                forall|j: int|
                    0 <= j < k ==> (#[trigger] r@[j]).image@ == image@ && r@[j].tag@
                        == self.current_tags@[j]@,
            decreases self.current_tags@.len() - k,
        {
            r.push(TagEntry { image: String::from_str(image), tag: self.current_tags[k].clone() });
            k = k + 1;
        }
        r
    }
}

impl Tagging {
    pub closed spec fn input_text(&self) -> Seq<char> {
        self.data.input@
    }

    pub closed spec fn tag_texts(&self) -> Seq<Seq<char>> {
        texts(self.data.current_tags@)
    }

    pub closed spec fn previous(&self) -> Option<Seq<char>> {
        match self.previous_tag {
            Some(t) => Some(t@),
            None => None,
        }
    }

    pub fn new() -> (t: Tagging)
        ensures
            t.input_text() == Seq::<char>::empty(),
            t.tag_texts() == Seq::<Seq<char>>::empty(),
            t.previous() is None,
    {
        let t = Tagging { data: TaggingToolData::new(), previous_tag: None };
        assert(t.tag_texts() =~= Seq::<Seq<char>>::empty());
        t
    }

    /// The text being typed.
    pub fn input(&self) -> (r: &str)
        ensures
            r@ == self.input_text(),
    {
        self.data.input.as_str()
    }

    pub fn set_input(&mut self, text: String)
        ensures
            final(self).input_text() == text@,
            final(self).tag_texts() == old(self).tag_texts(),
            final(self).previous() == old(self).previous(),
    {
        self.data.input = text;
    }

    /// The tags of the current image.
    pub fn current_tags(&self) -> (r: &Vec<String>)
        ensures
            texts(r@) == self.tag_texts(),
    {
        &self.data.current_tags
    }

    /// Adds the typed text as a tag; it becomes the tag to repeat, and the
    /// input is cleared.
    pub fn commit_input(&mut self)
        ensures
            final(self).tag_texts() == old(self).tag_texts().push(old(self).input_text()),
            final(self).previous() == Some(old(self).input_text()),
            final(self).input_text() == Seq::<char>::empty(),
    {
        let text = self.data.input.clone();
        self.data.current_tags.push(text);
        self.previous_tag = Some(self.data.input.clone());
        self.data.input = String::new();
        assert(self.tag_texts() =~= old(self).tag_texts().push(old(self).input_text()));
    }

    /// Adds the last added tag again, if there is one.
    pub fn repeat_tags(&mut self)
        ensures
            final(self).input_text() == old(self).input_text(),
            final(self).previous() == old(self).previous(),
            final(self).tag_texts() == match old(self).previous() {
                Some(t) => old(self).tag_texts().push(t),
                None => old(self).tag_texts(),
            },
    {
        match &self.previous_tag {
            Some(prev_tag) => {
                let t = prev_tag.clone();
                self.data.current_tags.push(t);
                assert(self.tag_texts() =~= old(self).tag_texts().push(old(self).previous()->0));
            },
            None => {},
        }
    }

    /// Removes the tag at `index`.
    pub fn remove_tag(&mut self, index: usize)
        requires
            index < old(self).tag_texts().len(),
        ensures
            final(self).tag_texts() == old(self).tag_texts().remove(index as int),
            final(self).input_text() == old(self).input_text(),
            final(self).previous() == old(self).previous(),
    {
        self.data.remove_tag(index);
    }

    /// See `TaggingToolData::load_tags`.
    pub fn load_tags(&mut self, records: Vec<TagEntry>, image: &str) -> (others: Vec<TagEntry>)
        ensures
            final(self).input_text() == old(self).input_text(),
            final(self).previous() == old(self).previous(),
            final(self).tag_texts() == tags_of(records@, image@),
            entry_texts(others@) == others_of(records@, image@),
    {
        self.data.load_tags(records, image)
    }

    /// See `TaggingToolData::save_tags`.
    pub fn save_tags(&self, image: &str) -> (r: Vec<TagEntry>)
        ensures
            texts(r@.map_values(|e: TagEntry| e.tag)) == self.tag_texts(),
            forall|k: int| 0 <= k < r@.len() ==> (#[trigger] r@[k]).image@ == image@,
    {
        let r = self.data.save_tags(image);
        assert(texts(r@.map_values(|e: TagEntry| e.tag)) =~= self.tag_texts());
        r
    }
}

impl Default for Tagging {
    fn default() -> (t: Tagging)
        ensures
            t.input_text() == Seq::<char>::empty(),
            t.tag_texts() == Seq::<Seq<char>>::empty(),
            t.previous() is None,
    {
        Tagging::new()
    }
}

/// Loading the tags of an image splits the table: every row goes either to
/// the image's tags or to the rows given back, and none is lost.
pub proof fn law_load_partitions_rows(entries: Seq<TagEntry>, image: Seq<char>)
    ensures
        tags_of(entries, image).len() + others_of(entries, image).len() == entries.len(),
    decreases entries.len(),
{
    if entries.len() > 0 {
        law_load_partitions_rows(entries.drop_last(), image);
    }
}

/// Rows of other images add no tags of `image`, and are all given back.
proof fn lemma_rows_of_others(others: Seq<TagEntry>, image: Seq<char>)
    requires
        forall|k: int| 0 <= k < others.len() ==> (#[trigger] others[k]).image@ != image,
    ensures
        tags_of(others, image) == Seq::<Seq<char>>::empty(),
        others_of(others, image) == entry_texts(others),
    decreases others.len(),
{
    if others.len() > 0 {
        let init = others.drop_last();
        assert forall|k: int| 0 <= k < init.len() implies (#[trigger] init[k]).image@ != image by {
            assert(init[k] == others[k]);
        }
        lemma_rows_of_others(init, image);
        assert(entry_texts(others) =~= entry_texts(init) + seq![
            (others.last().image@, others.last().tag@),
        ]);
        assert(tags_of(others, image) =~= Seq::<Seq<char>>::empty());
    }
}

/// Rows of the other images followed by rows of `image`: the tags of `image`
/// are those of the later rows, and the other rows come back unchanged.
proof fn lemma_rows_then_saved(others: Seq<TagEntry>, saved: Seq<TagEntry>, image: Seq<char>)
    requires
        forall|k: int| 0 <= k < others.len() ==> (#[trigger] others[k]).image@ != image,
        forall|k: int| 0 <= k < saved.len() ==> (#[trigger] saved[k]).image@ == image,
    ensures
        tags_of(others + saved, image) == saved.map_values(|e: TagEntry| e.tag@),
        others_of(others + saved, image) == entry_texts(others),
    decreases saved.len(),
{
    if saved.len() == 0 {
        assert(others + saved =~= others);
        lemma_rows_of_others(others, image);
        assert(saved.map_values(|e: TagEntry| e.tag@) =~= Seq::<Seq<char>>::empty());
    } else {
        let init = saved.drop_last();
        assert forall|k: int| 0 <= k < init.len() implies (#[trigger] init[k]).image@ == image by {
            assert(init[k] == saved[k]);
        }
        lemma_rows_then_saved(others, init, image);
        let all = others + saved;
        assert(all.drop_last() =~= others + init);
        assert(all.last() == saved.last());
        assert(saved.map_values(|e: TagEntry| e.tag@) =~= init.map_values(|e: TagEntry| e.tag@)
            + seq![saved.last().tag@]);
        assert(others_of(all, image) =~= others_of(others + init, image));
    }
}

/// What is saved is loaded back: after the rows of the other images, which
/// loading gave back, come the rows saved for `image`; loading `image` again
/// gives its saved tags in order, and gives back the other rows unchanged.
pub proof fn law_saved_tags_load_back(others: Seq<TagEntry>, saved: Seq<TagEntry>, image: Seq<char>)
    requires
        forall|k: int| 0 <= k < others.len() ==> (#[trigger] others[k]).image@ != image,
        forall|k: int| 0 <= k < saved.len() ==> (#[trigger] saved[k]).image@ == image,
    ensures
        tags_of(others + saved, image) == saved.map_values(|e: TagEntry| e.tag@),
        others_of(others + saved, image) == entry_texts(others),
{
    lemma_rows_then_saved(others, saved, image);
}

} // verus!
