//! Index-table + metadata-block architecture for independent parallel dataset creation.
//!
//! Each creator independently builds a [`MetadataBlock`] containing dataset metadata. Blocks are
//! merged into a [`MetadataIndex`] without collective synchronization, enabling concurrent dataset
//! creation.

use vstd::prelude::*;
use vstd::seq_lib::*;
use vstd::slice::slice_to_vec;
use vstd::utf8::*;
use crate::chunked_write::{ChunkOptions, OptionsModel};
use crate::dataspace::{Dataspace, DataspaceModel, DataspaceType};
use crate::datatype::{Datatype, DatatypeModel};
use crate::error::{ErrorModel, FormatError};
use crate::text::same_text;
use crate::type_builders;
use crate::type_builders::{AttrModel, AttrValue};

verus! {

broadcast use vstd::std_specs::control_flow::group_control_flow_axioms;

/// A single dataset's metadata collected independently by one creator.
#[derive(Debug)]
pub struct DatasetMetadata {
    /// Dataset name (path component, not full path).
    pub name: String,
    /// HDF5 datatype descriptor.
    pub datatype: Datatype,
    /// HDF5 dataspace (shape, rank, max dimensions).
    pub dataspace: Dataspace,
    /// Chunk layout options (chunk dims, compression, etc.).
    pub chunk_options: ChunkOptions,
    /// Optional maximum shape for resizable datasets.
    pub maxshape: Option<Vec<u64>>,
    /// User-defined attributes on this dataset.
    pub attrs: Vec<(String, AttrValue)>,
    /// Raw data bytes for this dataset.
    pub raw_data: Vec<u8>,
}

/// The content of a [`DatasetMetadata`].
pub struct MetadataModel {
    pub name: Seq<char>,
    pub datatype: DatatypeModel,
    pub dataspace: DataspaceModel,
    pub chunk_options: OptionsModel,
    pub maxshape: Option<Seq<u64>>,
    pub attrs: Seq<(Seq<char>, AttrModel)>,
    pub raw_data: Seq<u8>,
}

impl DeepView for DatasetMetadata {
    type V = MetadataModel;

    open spec fn deep_view(&self) -> MetadataModel {
        MetadataModel {
            name: self.name@,
            datatype: self.datatype.model(),
            dataspace: self.dataspace.deep_view(),
            chunk_options: self.chunk_options.deep_view(),
            maxshape: type_builders::optional(self.maxshape),
            attrs: self.attrs.deep_view(),
            raw_data: self.raw_data@,
        }
    }
}

fn clone_attrs(attrs: &Vec<(String, AttrValue)>) -> (copy: Vec<(String, AttrValue)>)
    ensures
        copy.deep_view() == attrs.deep_view(),
{
    let mut copy: Vec<(String, AttrValue)> = Vec::with_capacity(attrs.len());
    let mut k: usize = 0;
    while k < attrs.len()
        invariant
            k == copy@.len() <= attrs@.len(),
            forall|i: int|
                0 <= i < k ==> (#[trigger] copy@[i]).deep_view() == attrs@[i].deep_view(),
        decreases attrs@.len() - k,
    {
        copy.push((attrs[k].0.clone(), attrs[k].1.clone()));
        k += 1;
    }
    assert(copy.deep_view() =~= attrs.deep_view());
    copy
}

fn clone_shape(shape: &Option<Vec<u64>>) -> (copy: Option<Vec<u64>>)
    ensures
        type_builders::optional(copy) == type_builders::optional(*shape),
{
    match shape {
        Some(dims) => Some(slice_to_vec(dims.as_slice())),
        None => None,
    }
}

impl Clone for DatasetMetadata {
    fn clone(&self) -> (copy: Self)
        ensures
            copy.deep_view() == self.deep_view(),
    {
        DatasetMetadata {
            name: self.name.clone(),
            datatype: self.datatype.clone(),
            dataspace: self.dataspace.clone(),
            chunk_options: self.chunk_options.clone(),
            maxshape: clone_shape(&self.maxshape),
            attrs: clone_attrs(&self.attrs),
            raw_data: slice_to_vec(self.raw_data.as_slice()),
        }
    }
}

/// Metadata created independently by a single creator (e.g. one thread).
///
/// In independent mode, each creator accumulates datasets into its own block.
/// Blocks are later merged into a [`MetadataIndex`].
#[derive(Debug, Clone)]
pub struct MetadataBlock {
    /// Unique identifier for the creator (e.g. thread index).
    pub creator_id: u32,
    /// Datasets defined by this creator.
    pub datasets: Vec<DatasetMetadata>,
}

/// The content of a [`MetadataBlock`].
pub struct BlockModel {
    pub creator_id: u32,
    pub datasets: Seq<MetadataModel>,
}

impl DeepView for MetadataBlock {
    type V = BlockModel;

    open spec fn deep_view(&self) -> BlockModel {
        BlockModel { creator_id: self.creator_id, datasets: self.datasets.deep_view() }
    }
}

impl MetadataBlock {
    /// Create a new empty metadata block for the given creator.
    pub fn new(creator_id: u32) -> (b: Self)
        ensures
            b.deep_view() == (BlockModel { creator_id, datasets: Seq::empty() }),
    {
        let b = MetadataBlock { creator_id, datasets: Vec::new() };
        assert(b.datasets.deep_view() =~= Seq::<MetadataModel>::empty());
        b
    }

    /// Add a dataset to this block.
    pub fn add_dataset(&mut self, meta: DatasetMetadata)
        ensures
            final(self).deep_view() == (BlockModel {
                creator_id: old(self).creator_id,
                datasets: old(self).deep_view().datasets.push(meta.deep_view()),
            }),
    {
        let ghost added = meta.deep_view();
        self.datasets.push(meta);
        assert(self.datasets.deep_view() =~= old(self).datasets.deep_view().push(added));
    }
}

/// Creation mode for metadata blocks.
#[derive(Debug, Clone, Copy, PartialEq, Eq, Structural)]
pub enum CreationMode {
    /// All metadata in one block (traditional collective approach).
    Collective,
    /// Per-creator blocks merged at finalization (parallel independent approach).
    Independent,
}

/// Index table that maps dataset names to their metadata block locations.
///
/// After merging, each entry records which block contributed each dataset
/// and the dataset's position within the merged sequence.
#[derive(Debug, Clone)]
pub struct IndexEntry {
    /// Dataset name.
    pub name: String,
    /// Index into the flattened dataset list.
    pub dataset_index: usize,
    /// Which creator block this came from.
    pub source_block: u32,
}

/// The content of an [`IndexEntry`].
pub struct IndexEntryModel {
    pub name: Seq<char>,
    pub dataset_index: usize,
    pub source_block: u32,
}

impl DeepView for IndexEntry {
    type V = IndexEntryModel;

    open spec fn deep_view(&self) -> IndexEntryModel {
        IndexEntryModel {
            name: self.name@,
            dataset_index: self.dataset_index,
            source_block: self.source_block,
        }
    }
}

/// The merged metadata index produced from one or more [`MetadataBlock`]s.
#[derive(Debug, Clone)]
pub struct MetadataIndex {
    /// Creation mode used.
    pub mode: CreationMode,
    /// Ordered index entries (sorted by name for deterministic output).
    pub entries: Vec<IndexEntry>,
    /// Flattened list of all dataset metadata, in entry order.
    pub datasets: Vec<DatasetMetadata>,
}

/// The content of a [`MetadataIndex`].
pub struct IndexModel {
    pub mode: CreationMode,
    pub entries: Seq<IndexEntryModel>,
    pub datasets: Seq<MetadataModel>,
}

impl DeepView for MetadataIndex {
    type V = IndexModel;

    open spec fn deep_view(&self) -> IndexModel {
        IndexModel {
            mode: self.mode,
            entries: self.entries.deep_view(),
            datasets: self.datasets.deep_view(),
        }
    }
}

// ---- The order of names ----

/// Whether `a`, from its `k`-th byte on, comes before `b`.
pub open spec fn bytes_before(a: Seq<u8>, b: Seq<u8>, k: int) -> bool
    decreases b.len() - k,
{
    if k >= b.len() {
        false
    } else if k >= a.len() {
        true
    } else if a[k] != b[k] {
        a[k] < b[k]
    } else {
        bytes_before(a, b, k + 1)
    }
}

/// Whether a name comes before another: the order of their bytes.
pub open spec fn before(a: Seq<char>, b: Seq<char>) -> bool {
    bytes_before(encode_utf8(a), encode_utf8(b), 0)
}

proof fn lemma_bytes_total(a: Seq<u8>, b: Seq<u8>, k: int)
    requires
        0 <= k <= a.len(),
        k <= b.len(),
        forall|i: int| 0 <= i < k ==> a[i] == b[i],
        !bytes_before(a, b, k),
        !bytes_before(b, a, k),
    ensures
        a == b,
    decreases a.len() - k,
{
    if k < a.len() && k < b.len() {
        assert(a[k] == b[k]);
        lemma_bytes_total(a, b, k + 1);
    } else {
        assert(a =~= b);
    }
}

proof fn lemma_bytes_asymmetric(a: Seq<u8>, b: Seq<u8>, k: int)
    requires
        0 <= k,
        bytes_before(a, b, k),
    ensures
        !bytes_before(b, a, k),
    decreases b.len() - k,
{
    if k < a.len() && k < b.len() && a[k] == b[k] {
        lemma_bytes_asymmetric(a, b, k + 1);
    }
}

proof fn lemma_bytes_transitive(a: Seq<u8>, b: Seq<u8>, c: Seq<u8>, k: int)
    requires
        0 <= k,
        bytes_before(a, b, k),
        bytes_before(b, c, k),
    ensures
        bytes_before(a, c, k),
    decreases c.len() - k,
{
    if k < a.len() && k < b.len() && k < c.len() && a[k] == b[k] && b[k] == c[k] {
        lemma_bytes_transitive(a, b, c, k + 1);
    }
}

/// The order of names is total: of two different names, one comes before the other, and not the
/// other way round.
pub proof fn law_order_is_total(a: Seq<char>, b: Seq<char>)
    ensures
        before(a, b) || before(b, a) || a == b,
        !(before(a, b) && before(b, a)),
        !before(a, a),
{
    let x = encode_utf8(a);
    let y = encode_utf8(b);
    if before(a, b) {
        lemma_bytes_asymmetric(x, y, 0);
    } else if !before(b, a) {
        lemma_bytes_total(x, y, 0);
        encode_utf8_decode_utf8(a);
        encode_utf8_decode_utf8(b);
    }
    if before(a, a) {
        lemma_bytes_asymmetric(x, x, 0);
    }
}

/// The order of names is transitive.
pub proof fn law_order_is_transitive(a: Seq<char>, b: Seq<char>, c: Seq<char>)
    requires
        before(a, b),
        before(b, c),
    ensures
        before(a, c),
{
    lemma_bytes_transitive(encode_utf8(a), encode_utf8(b), encode_utf8(c), 0);
}

fn comes_before(a: &str, b: &str) -> (r: bool)
    ensures
        r == before(a@, b@),
{
    let x = a.as_bytes();
    let y = b.as_bytes();
    let mut k: usize = 0;
    while k < y.len()
        invariant
            k <= y@.len(),
            k <= x@.len(),
            x@ == encode_utf8(a@),
            y@ == encode_utf8(b@),
            bytes_before(x@, y@, 0) == bytes_before(x@, y@, k as int),
        decreases y@.len() - k,
    {
        if k >= x.len() {
            return true;
        }
        if x[k] != y[k] {
            return x[k] < y[k];
        }
        k += 1;
    }
    false
}

// ---- Merging ----

/// A dataset and the creator that it comes from.
pub type Item = (u32, MetadataModel);

/// The first `n` datasets of a block.
pub open spec fn block_items(block: BlockModel, n: int) -> Seq<Item> {
    Seq::new(n as nat, |i: int| (block.creator_id, block.datasets[i]))
}

/// The datasets of the first `n` blocks.
pub open spec fn all_items(blocks: Seq<BlockModel>, n: int) -> Seq<Item>
    decreases n,
{
    if n <= 0 {
        Seq::empty()
    } else {
        all_items(blocks, n - 1) + block_items(
            blocks[n - 1],
            blocks[n - 1].datasets.len() as int,
        )
    }
}

/// The datasets of a single block.
pub open spec fn collective_items(datasets: Seq<MetadataModel>) -> Seq<Item> {
    block_items(BlockModel { creator_id: 0, datasets }, datasets.len() as int)
}

/// Whether no name stands behind one that it comes before.
pub open spec fn in_order(s: Seq<Item>) -> bool {
    forall|i: int, j: int|
        0 <= i < j < s.len() ==> !before((#[trigger] s[j]).1.name, (#[trigger] s[i]).1.name)
}

/// Whether `s` is an arrangement of the items in the order of their names.
pub open spec fn is_arrangement(s: Seq<Item>, items: Seq<Item>) -> bool {
    in_order(s) && s.to_multiset() == items.to_multiset()
}

/// Whether no two items have the same name.
pub open spec fn distinct_names(s: Seq<Item>) -> bool {
    forall|i: int, j: int|
        0 <= i < j < s.len() ==> (#[trigger] s[i]).1.name != (#[trigger] s[j]).1.name
}

/// The first name, from the `i`-th on, that is the same as the one in front of it.
pub open spec fn first_repeat(names: Seq<Seq<char>>, i: int) -> Option<Seq<char>>
    decreases names.len() - i,
{
    if i >= names.len() {
        None
    } else if names[i] == names[i - 1] {
        Some(names[i])
    } else {
        first_repeat(names, i + 1)
    }
}

/// The names of the items.
pub open spec fn names_of(s: Seq<Item>) -> Seq<Seq<char>> {
    Seq::new(s.len(), |i: int| s[i].1.name)
}

/// The names in the entries.
pub open spec fn entry_names(entries: Seq<IndexEntryModel>) -> Seq<Seq<char>> {
    Seq::new(entries.len(), |i: int| entries[i].name)
}

impl IndexModel {
    /// Each dataset with the creator that its entry names.
    pub open spec fn items(self) -> Seq<Item> {
        Seq::new(
            self.entries.len(),
            |i: int| (self.entries[i].source_block, self.datasets[i]),
        )
    }

    /// Whether the entries stand for the datasets, one by one.
    pub open spec fn wf(self) -> bool {
        &&& self.entries.len() == self.datasets.len()
        &&& forall|i: int|
            0 <= i < self.entries.len() ==> (#[trigger] self.entries[i]).dataset_index == i
                && self.entries[i].name == self.datasets[i].name
    }

    /// The position of the first entry at or behind the `from`-th with the given name.
    pub open spec fn position(self, name: Seq<char>, from: int) -> Option<int>
        decreases self.entries.len() - from,
    {
        if from >= self.entries.len() {
            None
        } else if self.entries[from].name == name {
            Some(from)
        } else {
            self.position(name, from + 1)
        }
    }
}

proof fn lemma_no_repeat(names: Seq<Seq<char>>, i: int)
    requires
        1 <= i,
        first_repeat(names, i) is None,
    ensures
        forall|k: int| i <= k < names.len() ==> #[trigger] names[k] != names[k - 1],
    decreases names.len() - i,
{
    if i < names.len() {
        lemma_no_repeat(names, i + 1);
    }
}

proof fn lemma_repeat_at(names: Seq<Seq<char>>, i: int) -> (k: int)
    requires
        1 <= i,
        first_repeat(names, i) is Some,
    ensures
        i <= k < names.len(),
        names[k] == names[k - 1],
        first_repeat(names, i) == Some(names[k]),
    decreases names.len() - i,
{
    if names[i] == names[i - 1] {
        i
    } else {
        lemma_repeat_at(names, i + 1)
    }
}

/// Items in order of which no two neighbours have the same name increase strictly.
proof fn lemma_strict(s: Seq<Item>, i: int, j: int)
    requires
        in_order(s),
        first_repeat(names_of(s), 1) is None,
        0 <= i < j < s.len(),
    ensures
        before(s[i].1.name, s[j].1.name),
    decreases j - i,
{
    lemma_no_repeat(names_of(s), 1);
    let a = s[j - 1].1.name;
    let b = s[j].1.name;
    assert(names_of(s)[j] != names_of(s)[j - 1]);
    law_order_is_total(a, b);
    if i < j - 1 {
        lemma_strict(s, i, j - 1);
        law_order_is_transitive(s[i].1.name, a, b);
    }
}

/// In an arrangement some name follows itself exactly if two items have the same name.
pub proof fn law_arrangement_shows_repeats(s: Seq<Item>, items: Seq<Item>)
    requires
        is_arrangement(s, items),
    ensures
        first_repeat(names_of(s), 1) is None <==> distinct_names(items),
{
    broadcast use vstd::multiset::group_multiset_axioms;
    broadcast use group_to_multiset_ensures;

    if first_repeat(names_of(s), 1) is None {
        assert forall|i: int, j: int| 0 <= i < j < s.len() implies (#[trigger] s[i]).1.name != (
        #[trigger] s[j]).1.name by {
            lemma_strict(s, i, j);
            law_order_is_total(s[i].1.name, s[j].1.name);
        }
        lemma_distinct_transfers(s, items);
    } else {
        let k = lemma_repeat_at(names_of(s), 1);
        if distinct_names(items) {
            lemma_distinct_transfers(items, s);
            assert(s[k - 1].1.name == s[k].1.name) by {
                assert(names_of(s)[k] == names_of(s)[k - 1]);
            }
            assert(false);
        }
    }
}

proof fn lemma_distinct_transfers(s: Seq<Item>, t: Seq<Item>)
    requires
        distinct_names(s),
        s.to_multiset() == t.to_multiset(),
    ensures
        distinct_names(t),
{
    broadcast use vstd::multiset::group_multiset_axioms;
    broadcast use group_to_multiset_ensures;

    assert(s.no_duplicates()) by {
        assert forall|i: int, j: int| 0 <= i < s.len() && 0 <= j < s.len() && i != j implies s[i]
            != s[j] by {
            if i < j {
                assert(s[i].1.name != s[j].1.name);
            } else {
                assert(s[j].1.name != s[i].1.name);
            }
        }
    }
    s.lemma_multiset_has_no_duplicates();
    t.lemma_multiset_has_no_duplicates_conv();
    assert forall|i: int, j: int| 0 <= i < j < t.len() implies (#[trigger] t[i]).1.name != (
    #[trigger] t[j]).1.name by {
        assert(t.contains(t[i]));
        assert(t.contains(t[j]));
        assert(s.to_multiset().contains(t[i]));
        assert(s.to_multiset().contains(t[j]));
        assert(s.contains(t[i]));
        assert(s.contains(t[j]));
        let a = choose|a: int| 0 <= a < s.len() && s[a] == t[i];
        let b = choose|b: int| 0 <= b < s.len() && s[b] == t[j];
        assert(t[i] != t[j]);
        if a < b {
            assert(s[a].1.name != s[b].1.name);
        } else {
            assert(s[b].1.name != s[a].1.name);
        }
    }
}

/// Merging does not depend on the order of the blocks: items with distinct names have one
/// arrangement.
pub proof fn law_arrangement_is_unique(s: Seq<Item>, t: Seq<Item>, items: Seq<Item>, others: Seq<Item>)
    requires
        is_arrangement(s, items),
        is_arrangement(t, others),
        items.to_multiset() == others.to_multiset(),
        distinct_names(items),
    ensures
        s == t,
    decreases s.len(),
{
    broadcast use vstd::multiset::group_multiset_axioms;
    broadcast use group_to_multiset_ensures;

    lemma_distinct_transfers(items, s);
    lemma_distinct_transfers(items, t);
    assert(s.len() == t.len()) by {
        assert(s.to_multiset().len() == s.len());
        assert(t.to_multiset().len() == t.len());
    }
    if s.len() > 0 {
        let n = s.len() - 1;
        assert(s[n] == t[n]) by {
            assert(t.to_multiset().contains(s[n])) by {
                assert(s.contains(s[n]));
            }
            assert(s.to_multiset().contains(t[n])) by {
                assert(t.contains(t[n]));
            }
            let a = choose|a: int| 0 <= a < t.len() && t[a] == s[n];
            let b = choose|b: int| 0 <= b < s.len() && s[b] == t[n];
            assert(0 <= a < t.len() && t[a] == s[n]) by {
                assert(t.contains(s[n]));
            }
            assert(0 <= b < s.len() && s[b] == t[n]) by {
                assert(s.contains(t[n]));
            }
            if a != n {
                assert(!before(t[n].1.name, t[a].1.name));
                if b != n {
                    assert(!before(s[n].1.name, s[b].1.name));
                    law_order_is_total(s[n].1.name, t[n].1.name);
                    assert(t[a].1.name != t[n].1.name);
                }
            }
        }
        let s1 = s.drop_last();
        let t1 = t.drop_last();
        assert(s =~= s1.push(s[n]));
        assert(t =~= t1.push(t[n]));
        assert(s1.to_multiset() =~= s.to_multiset().remove(s[n])) by {
            assert(s1 =~= s.remove(n));
        }
        assert(t1.to_multiset() =~= t.to_multiset().remove(t[n])) by {
            assert(t1 =~= t.remove(n));
        }
        assert(in_order(s1)) by {
            assert forall|i: int, j: int| 0 <= i < j < s1.len() implies !before(
                (#[trigger] s1[j]).1.name,
                (#[trigger] s1[i]).1.name,
            ) by {
                assert(s1[i] == s[i] && s1[j] == s[j]);
            }
        }
        assert(in_order(t1)) by {
            assert forall|i: int, j: int| 0 <= i < j < t1.len() implies !before(
                (#[trigger] t1[j]).1.name,
                (#[trigger] t1[i]).1.name,
            ) by {
                assert(t1[i] == t[i] && t1[j] == t[j]);
            }
        }
        assert(distinct_names(s1)) by {
            assert forall|i: int, j: int| 0 <= i < j < s1.len() implies (#[trigger] s1[i]).1.name != (
            #[trigger] s1[j]).1.name by {
                assert(s1[i] == s[i] && s1[j] == s[j]);
            }
        }
        law_arrangement_is_unique(s1, t1, s1, t1);
    } else {
        assert(s =~= t);
    }
}

fn check_duplicates(entries: &Vec<IndexEntry>) -> (r: Result<(), FormatError>)
    ensures
        match r {
            Ok(_) => first_repeat(entry_names(entries.deep_view()), 1) is None,
            Err(e) => first_repeat(entry_names(entries.deep_view()), 1) matches Some(name)
                && e.deep_view() == ErrorModel::DuplicateDatasetName(name),
        },
{
    let ghost names = entry_names(entries.deep_view());
    let mut i: usize = 1;
    while i < entries.len()
        invariant
            1 <= i,
            names == entry_names(entries.deep_view()),
            names.len() == entries@.len(),
            first_repeat(names, 1) == first_repeat(names, i as int),
        decreases entries@.len() - i,
    {
        assert(names[i as int] == entries@[i as int].name@);
        assert(names[i - 1] == entries@[i - 1].name@);
        if same_text(entries[i].name.as_str(), entries[i - 1].name.as_str()) {
            return Err(FormatError::DuplicateDatasetName(entries[i].name.clone()));
        }
        i += 1;
    }
    Ok(())
}

/// The item at a place: the number of a block, and the number of a dataset in it.
spec fn item_at(blocks: Seq<BlockModel>, place: (usize, usize)) -> Item {
    let block = blocks[place.0 as int];
    (block.creator_id, block.datasets[place.1 as int])
}

/// Whether there is such a place.
spec fn is_place(blocks: Seq<BlockModel>, place: (usize, usize)) -> bool {
    place.0 < blocks.len() && place.1 < blocks[place.0 as int].datasets.len()
}

/// The items at the places.
spec fn items_at(blocks: Seq<BlockModel>, places: Seq<(usize, usize)>) -> Seq<Item> {
    Seq::new(places.len(), |i: int| item_at(blocks, places[i]))
}

/// Puts a place where its name belongs, behind those that it does not come before.
fn put_place(blocks: &[MetadataBlock], order: &mut Vec<(usize, usize)>, place: (usize, usize))
    requires
        is_place(blocks.deep_view(), place),
        forall|i: int|
            0 <= i < old(order)@.len() ==> is_place(blocks.deep_view(), #[trigger] old(order)@[i]),
        in_order(items_at(blocks.deep_view(), old(order)@)),
    ensures
        forall|i: int|
            0 <= i < final(order)@.len() ==> is_place(
                blocks.deep_view(),
                #[trigger] final(order)@[i],
            ),
        in_order(items_at(blocks.deep_view(), final(order)@)),
        items_at(blocks.deep_view(), final(order)@).to_multiset() == items_at(
            blocks.deep_view(),
            old(order)@,
        ).to_multiset().insert(item_at(blocks.deep_view(), place)),
{
    broadcast use group_to_multiset_ensures;

    let ghost models = blocks.deep_view();
    let ghost s = items_at(models, order@);
    let ghost x = item_at(models, place);
    let name = &blocks[place.0].datasets[place.1].name;
    assert(models[place.0 as int] == blocks@[place.0 as int].deep_view());
    assert(x.1.name == name@);
    let mut j: usize = order.len();
    while j > 0
        invariant_except_break
            forall|i: int| j <= i < s.len() ==> before(name@, (#[trigger] s[i]).1.name),
        invariant
            j <= order@.len(),
            models == blocks.deep_view(),
            s == items_at(models, order@),
            s.len() == order@.len(),
            forall|i: int| 0 <= i < order@.len() ==> is_place(models, #[trigger] order@[i]),
            in_order(s),
            order@ == old(order)@,
        ensures
            forall|i: int| j <= i < s.len() ==> before(name@, (#[trigger] s[i]).1.name),
            j > 0 ==> !before(name@, s[j - 1].1.name),
        decreases j,
    {
        let p = order[j - 1];
        assert(is_place(models, order@[j - 1]));
        assert(models[p.0 as int] == blocks@[p.0 as int].deep_view());
        assert(s[j - 1] == item_at(models, p));
        if !comes_before(name.as_str(), blocks[p.0].datasets[p.1].name.as_str()) {
            break;
        }
        j -= 1;
    }
    order.insert(j, place);
    proof {
        let t = items_at(models, order@);
        assert(t =~= s.insert(j as int, x));
        assert forall|i: int| 0 <= i < order@.len() implies is_place(models, #[trigger] order@[i]) by {
            if i < j {
                assert(order@[i] == old(order)@[i]);
            } else if i > j {
                assert(order@[i] == old(order)@[i - 1]);
            }
        }
        assert forall|a: int, b: int| 0 <= a < b < t.len() implies !before(
            (#[trigger] t[b]).1.name,
            (#[trigger] t[a]).1.name,
        ) by {
            lemma_inserted_order(s, x, j as int, a, b);
        }
    }
}

proof fn lemma_inserted_order(s: Seq<Item>, x: Item, j: int, a: int, b: int)
    requires
        in_order(s),
        0 <= j <= s.len(),
        forall|i: int| j <= i < s.len() ==> before(x.1.name, (#[trigger] s[i]).1.name),
        j > 0 ==> !before(x.1.name, s[j - 1].1.name),
        0 <= a < b <= s.len(),
    ensures
        !before(s.insert(j, x)[b].1.name, s.insert(j, x)[a].1.name),
{
    let t = s.insert(j, x);
    let n = x.1.name;
    if a == j {
        assert(t[b] == s[b - 1]);
        law_order_is_total(n, s[b - 1].1.name);
    } else if b == j {
        assert(t[a] == s[a]);
        let m = s[a].1.name;
        let last = s[j - 1].1.name;
        if before(n, m) {
            if a < j - 1 {
                assert(!before(s[j - 1].1.name, s[a].1.name));
                law_order_is_total(m, last);
                if before(m, last) {
                    law_order_is_transitive(n, m, last);
                }
            }
        }
    } else if a < j && b < j {
        assert(t[a] == s[a] && t[b] == s[b]);
    } else if a < j {
        assert(t[a] == s[a] && t[b] == s[b - 1]);
        if a == b - 1 {
            law_order_is_total(s[a].1.name, s[a].1.name);
        }
    } else {
        assert(t[a] == s[a - 1] && t[b] == s[b - 1]);
    }
}

/// The places of all datasets, in the order of their names.
fn arrange(blocks: &[MetadataBlock]) -> (order: Vec<(usize, usize)>)
    ensures
        forall|i: int|
            0 <= i < order@.len() ==> is_place(blocks.deep_view(), #[trigger] order@[i]),
        is_arrangement(
            items_at(blocks.deep_view(), order@),
            all_items(blocks.deep_view(), blocks@.len() as int),
        ),
{
    broadcast use group_to_multiset_ensures;

    let ghost models = blocks.deep_view();
    let mut order: Vec<(usize, usize)> = Vec::new();
    assert(items_at(models, order@) =~= Seq::<Item>::empty());
    let mut b: usize = 0;
    while b < blocks.len()
        invariant
            b <= blocks@.len(),
            models == blocks.deep_view(),
            forall|i: int| 0 <= i < order@.len() ==> is_place(models, #[trigger] order@[i]),
            is_arrangement(items_at(models, order@), all_items(models, b as int)),
        decreases blocks@.len() - b,
    {
        let ghost done = all_items(models, b as int);
        assert(models[b as int] == blocks@[b as int].deep_view());
        let mut k: usize = 0;
        assert(done + block_items(models[b as int], 0) =~= done);
        while k < blocks[b].datasets.len()
            invariant
                b < blocks@.len(),
                k <= blocks@[b as int].datasets@.len(),
                models == blocks.deep_view(),
                models[b as int] == blocks@[b as int].deep_view(),
                done == all_items(models, b as int),
                forall|i: int| 0 <= i < order@.len() ==> is_place(models, #[trigger] order@[i]),
                is_arrangement(
                    items_at(models, order@),
                    done + block_items(models[b as int], k as int),
                ),
            decreases blocks@[b as int].datasets@.len() - k,
        {
            put_place(blocks, &mut order, (b, k));
            proof {
                let so_far = done + block_items(models[b as int], k as int);
                let more = done + block_items(models[b as int], k + 1);
                assert(more =~= so_far.push(item_at(models, (b, k))));
                to_multiset_build(so_far, item_at(models, (b, k)));
            }
            k += 1;
        }
        b += 1;
    }
    order
}

impl MetadataIndex {
    /// Create a collective-mode index from a single block of datasets.
    ///
    /// Returns an error if any two datasets have the same name.
    pub fn from_collective(datasets: Vec<DatasetMetadata>) -> (r: Result<Self, FormatError>)
        ensures
            ({
                let items = collective_items(datasets.deep_view());
                &&& r is Ok <==> distinct_names(items)
                &&& match r {
                    Ok(index) => {
                        &&& index.mode == CreationMode::Collective
                        &&& index.deep_view().wf()
                        &&& is_arrangement(index.deep_view().items(), items)
                    },
                    Err(e) => exists|s: Seq<Item>|
                        #![trigger is_arrangement(s, items)]
                        is_arrangement(s, items) && first_repeat(names_of(s), 1) is Some
                            && e.deep_view() == ErrorModel::DuplicateDatasetName(
                            first_repeat(names_of(s), 1)->0,
                        ),
                }
            }),
    {
        let ghost items = collective_items(datasets.deep_view());
        let mut blocks: Vec<MetadataBlock> = Vec::with_capacity(1);
        blocks.push(MetadataBlock { creator_id: 0, datasets });
        let slice = blocks.as_slice();
        proof {
            let models = slice.deep_view();
            assert(models[0] == slice@[0].deep_view());
            reveal_with_fuel(all_items, 2);
            assert(all_items(models, 1) =~= items);
        }
        let index = MetadataIndex::merge_blocks(slice)?;
        let collective = MetadataIndex {
            mode: CreationMode::Collective,
            entries: index.entries,
            datasets: index.datasets,
        };
        assert(collective.deep_view().items() == index.deep_view().items());
        Ok(collective)
    }

    /// Merge multiple independently created metadata blocks into a single index.
    ///
    /// Returns an error if any two blocks contain datasets with the same name.
    pub fn merge_blocks(blocks: &[MetadataBlock]) -> (r: Result<Self, FormatError>)
        ensures
            ({
                let items = all_items(blocks.deep_view(), blocks@.len() as int);
                &&& r is Ok <==> distinct_names(items)
                &&& match r {
                    Ok(index) => {
                        &&& index.mode == CreationMode::Independent
                        &&& index.deep_view().wf()
                        &&& is_arrangement(index.deep_view().items(), items)
                    },
                    Err(e) => exists|s: Seq<Item>|
                        #![trigger is_arrangement(s, items)]
                        is_arrangement(s, items) && first_repeat(names_of(s), 1) is Some
                            && e.deep_view() == ErrorModel::DuplicateDatasetName(
                            first_repeat(names_of(s), 1)->0,
                        ),
                }
            }),
    {
        let ghost models = blocks.deep_view();
        let ghost items = all_items(models, blocks@.len() as int);
        // Sort entries by name for deterministic file layout
        let order = arrange(blocks);
        let ghost s = items_at(models, order@);
        let mut entries: Vec<IndexEntry> = Vec::with_capacity(order.len());
        let mut datasets: Vec<DatasetMetadata> = Vec::with_capacity(order.len());
        let mut i: usize = 0;
        while i < order.len()
            invariant
                i == entries@.len() == datasets@.len() <= order@.len(),
                models == blocks.deep_view(),
                s == items_at(models, order@),
                forall|k: int| 0 <= k < order@.len() ==> is_place(models, #[trigger] order@[k]),
                forall|k: int|
                    0 <= k < i ==> (#[trigger] entries@[k]).deep_view() == (IndexEntryModel {
                        name: s[k].1.name,
                        dataset_index: k as usize,
                        source_block: s[k].0,
                    }),
                forall|k: int| 0 <= k < i ==> (#[trigger] datasets@[k]).deep_view() == s[k].1,
            decreases order@.len() - i,
        {
            let p = order[i];
            assert(is_place(models, order@[i as int]));
            assert(models[p.0 as int] == blocks@[p.0 as int].deep_view());
            assert(s[i as int] == item_at(models, p));
            let dataset = &blocks[p.0].datasets[p.1];
            entries.push(
                IndexEntry {
                    name: dataset.name.clone(),
                    dataset_index: i,
                    source_block: blocks[p.0].creator_id,
                },
            );
            datasets.push(dataset.clone());
            i += 1;
        }
        proof {
            law_arrangement_shows_repeats(s, items);
            assert(entry_names(entries.deep_view()) =~= names_of(s)) by {
                assert forall|k: int| 0 <= k < s.len() implies entry_names(entries.deep_view())[k]
                    == names_of(s)[k] by {
                    assert(entries@[k].deep_view().name == s[k].1.name);
                }
            }
        }
        check_duplicates(&entries)?;
        let index = MetadataIndex { mode: CreationMode::Independent, entries, datasets };
        proof {
            let m = index.deep_view();
            assert forall|k: int| 0 <= k < m.entries.len() implies (
            #[trigger] m.entries[k]).dataset_index == k && m.entries[k].name == m.datasets[k].name by {
                assert(index.entries@[k].deep_view() == m.entries[k]);
                assert(index.datasets@[k].deep_view() == m.datasets[k]);
            }
            assert(m.items() =~= s) by {
                assert forall|k: int| 0 <= k < s.len() implies m.items()[k] == s[k] by {
                    assert(index.entries@[k].deep_view() == m.entries[k]);
                    assert(index.datasets@[k].deep_view() == m.datasets[k]);
                }
            }
        }
        Ok(index)
    }

    /// Look up a dataset by name.
    pub fn find(&self, name: &str) -> (r: Option<&DatasetMetadata>)
        requires
            self.deep_view().wf(),
        ensures
            match r {
                Some(dataset) => self.deep_view().position(name@, 0) matches Some(i)
                    && dataset.deep_view() == self.deep_view().datasets[i],
                None => self.deep_view().position(name@, 0) is None,
            },
    {
        let ghost m = self.deep_view();
        let mut k: usize = 0;
        while k < self.entries.len()
            invariant
                k <= self.entries@.len(),
                m == self.deep_view(),
                m.wf(),
                m.position(name@, 0) == m.position(name@, k as int),
            decreases self.entries@.len() - k,
        {
            assert(m.entries[k as int] == self.entries@[k as int].deep_view());
            if same_text(self.entries[k].name.as_str(), name) {
                let i: usize = self.entries[k].dataset_index;
                assert(m.datasets[i as int] == self.datasets@[i as int].deep_view());
                return Some(&self.datasets[i]);
            }
            k += 1;
        }
        None
    }

    /// Number of datasets in the index.
    pub fn len(&self) -> (n: usize)
        ensures
            n == self.datasets@.len(),
    {
        self.datasets.len()
    }

    /// Whether the index is empty.
    pub fn is_empty(&self) -> (r: bool)
        ensures
            r == (self.datasets@.len() == 0),
    {
        self.datasets.len() == 0
    }
}

/// In an index whose names are distinct, each dataset is found by its name.
pub proof fn law_each_dataset_is_found(m: IndexModel, i: int)
    requires
        m.wf(),
        distinct_names(m.items()),
        0 <= i < m.entries.len(),
    ensures
        m.position(m.datasets[i].name, 0) == Some(i),
{
    lemma_position(m, i, 0);
}

proof fn lemma_position(m: IndexModel, i: int, from: int)
    requires
        m.wf(),
        distinct_names(m.items()),
        0 <= from <= i < m.entries.len(),
    ensures
        m.position(m.datasets[i].name, from) == Some(i),
    decreases i - from,
{
    if from < i {
        assert(m.items()[from].1.name != m.items()[i].1.name);
        assert(m.entries[from].name == m.datasets[from].name);
        lemma_position(m, i, from + 1);
    } else {
        assert(m.entries[i].name == m.datasets[i].name);
    }
}

/// The metadata made of common parameters.
pub open spec fn metadata_of(
    name: Seq<char>,
    datatype: DatatypeModel,
    shape: Seq<u64>,
    raw_data: Seq<u8>,
    chunk_options: OptionsModel,
    maxshape: Option<Seq<u64>>,
    attrs: Seq<(Seq<char>, AttrModel)>,
) -> MetadataModel {
    MetadataModel {
        name,
        datatype,
        dataspace: DataspaceModel {
            space_type: if shape.len() == 0 {
                DataspaceType::Scalar
            } else {
                DataspaceType::Simple
            },
            rank: shape.len() as u8,
            dimensions: shape,
            max_dimensions: maxshape,
        },
        chunk_options,
        maxshape,
        attrs,
        raw_data,
    }
}

/// Helper: build a `DatasetMetadata` from common parameters.
pub fn build_dataset_metadata(
    name: &str,
    datatype: Datatype,
    shape: Vec<u64>,
    raw_data: Vec<u8>,
    chunk_options: ChunkOptions,
    maxshape: Option<Vec<u64>>,
    attrs: Vec<(String, AttrValue)>,
) -> (m: DatasetMetadata)
    ensures
        m.deep_view() == metadata_of(
            name@,
            datatype.model(),
            shape@,
            raw_data@,
            chunk_options.deep_view(),
            type_builders::optional(maxshape),
            attrs.deep_view(),
        ),
{
    let dataspace = Dataspace {
        space_type: if shape.len() == 0 {
            DataspaceType::Scalar
        } else {
            DataspaceType::Simple
        },
        rank: shape.len() as u8,
        dimensions: shape,
        max_dimensions: clone_shape(&maxshape),
    };
    DatasetMetadata {
        name: name.to_owned(),
        datatype,
        dataspace,
        chunk_options,
        maxshape,
        attrs,
        raw_data,
    }
}

} // verus!
