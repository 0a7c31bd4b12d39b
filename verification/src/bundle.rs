//! Bundles: surface instances that are drawn with the same data and the same material.
use vstd::prelude::*;
use vstd::string::StringExecFns;

use crate::instance::InstanceView;
use crate::instance::SurfaceInstanceData;
use crate::resource::MaterialResource;
use crate::resource::RenderPath;
use crate::resource::SurfaceResource;
use crate::resource::TimeToLive;
use crate::resource::VertexAttributeDescriptor;

verus! {

/// A set of surface instances that share the same vertex/index data and a material.
pub struct RenderDataBundle {
    /// A pointer to shared surface data.
    pub data: SurfaceResource,
    /// Amount of time (in seconds) for GPU geometry buffer (vertex + index buffers) generated for
    /// the `data`.
    pub time_to_live: TimeToLive,
    /// A set of instances.
    pub instances: Vec<SurfaceInstanceData>,
    /// A material that is shared across all instances.
    pub material: MaterialResource,
    /// Whether the bundle is using GPU skinning or not.
    pub is_skinned: bool,
    /// A render path of the bundle.
    pub render_path: RenderPath,
    /// A decal layer index of the bundle.
    pub decal_layer_index: u8,
    /// What the storage that opened the bundle finds and orders it by.
    pub tag: BundleTag,
}

/// What the storage that opened a bundle finds and orders it by. Only a storage makes one.
pub struct BundleTag {
    key: u64,
    sort_index: u64,
    layout: Ghost<Option<Seq<VertexAttributeDescriptor>>>,
}

/// What a bundle's tag holds.
#[verifier::ext_equal]
pub struct TagView {
    /// The key under which the bundle was opened.
    pub key: u64,
    /// The place of the bundle in the order of rendering: bundles with smaller indices are
    /// rendered first.
    pub sort_index: u64,
    /// The vertex layout of the triangles that the bundle was opened for, if it was for triangles.
    pub layout: Option<Seq<VertexAttributeDescriptor>>,
}

impl View for BundleTag {
    type V = TagView;

    closed spec fn view(&self) -> TagView {
        TagView { key: self.key, sort_index: self.sort_index, layout: self.layout@ }
    }
}

/// The model of a tag is what the tag holds.
proof fn lemma_tags_hold_their_fields(tag: BundleTag)
    ensures
        tag@.key == tag.key,
        tag@.sort_index == tag.sort_index,
        tag@.layout == tag.layout@,
{
}

impl BundleTag {
    /// Tags a bundle that is opened.
    pub(crate) fn new(
        key: u64,
        sort_index: u64,
        layout: Ghost<Option<Seq<VertexAttributeDescriptor>>>,
    ) -> (tag: Self)
        ensures
            tag@ == (TagView { key, sort_index, layout: layout@ }),
            tag@.key == key,
            tag@.sort_index == sort_index,
            tag@.layout == layout@,
    {
        BundleTag { key, sort_index, layout }
    }
}

/// What a bundle holds.
#[verifier::ext_equal]
pub struct BundleView {
    pub data: SurfaceResource,
    pub time_to_live: TimeToLive,
    pub instances: Seq<InstanceView>,
    pub material: MaterialResource,
    pub is_skinned: bool,
    pub render_path: RenderPath,
    pub decal_layer_index: u8,
    pub key: u64,
    pub sort_index: u64,
    pub layout: Option<Seq<VertexAttributeDescriptor>>,
}

impl View for RenderDataBundle {
    type V = BundleView;

    open spec fn view(&self) -> BundleView {
        BundleView {
            data: self.data,
            time_to_live: self.time_to_live,
            instances: self.instances@.map_values(|i: SurfaceInstanceData| i@),
            material: self.material,
            is_skinned: self.is_skinned,
            render_path: self.render_path,
            decal_layer_index: self.decal_layer_index,
            key: self.tag@.key,
            sort_index: self.tag@.sort_index,
            layout: self.tag@.layout,
        }
    }
}

/// What each of several bundles holds.
pub open spec fn bundle_views(bundles: Seq<RenderDataBundle>) -> Seq<BundleView> {
    bundles.map_values(|b: RenderDataBundle| b@)
}

/// Whether no bundle comes after one with a greater sort index.
pub open spec fn in_rendering_order(bundles: Seq<BundleView>) -> bool {
    forall|i: int, j: int|
        0 <= i <= j < bundles.len() ==> (#[trigger] bundles[i]).sort_index <= (
        #[trigger] bundles[j]).sort_index
}

/// `<[RenderDataBundle]>::sort_unstable_by_key` by the sort index: the same bundles, each as
/// often as before, so ordered that sort indices never fall. How bundles with equal sort indices
/// are ordered is left open.
#[verifier::external_body]
pub(crate) fn sort_by_index(bundles: &mut Vec<RenderDataBundle>)
    ensures
        bundle_views(final(bundles)@).to_multiset() == bundle_views(old(bundles)@).to_multiset(),
        in_rendering_order(bundle_views(final(bundles)@)),
{
    bundles.sort_unstable_by_key(|b| b.tag.sort_index);
}

/// The decimal digit of a number below ten.
pub open spec fn digit(n: nat) -> char {
    ('0' as int + n) as char
}

/// The decimal digits of a number.
pub open spec fn decimal(n: nat) -> Seq<char>
    decreases n,
{
    if n < 10 {
        seq![digit(n)]
    } else {
        decimal(n / 10).push(digit(n % 10))
    }
}

/// The text of a number below ten.
fn digit_text(n: u64) -> (text: &'static str)
    requires
        n < 10,
    ensures
        text@ == seq![digit(n as nat)],
{
    proof {
        reveal_strlit("0");
        reveal_strlit("1");
        reveal_strlit("2");
        reveal_strlit("3");
        reveal_strlit("4");
        reveal_strlit("5");
        reveal_strlit("6");
        reveal_strlit("7");
        reveal_strlit("8");
        reveal_strlit("9");
    }
    match n {
        0 => "0",
        1 => "1",
        2 => "2",
        3 => "3",
        4 => "4",
        5 => "5",
        6 => "6",
        7 => "7",
        8 => "8",
        _ => "9",
    }
}

/// The text of a number.
fn decimal_text(n: u64) -> (text: String)
    ensures
        text@ == decimal(n as nat),
    decreases n,
{
    if n < 10 {
        digit_text(n).to_string()
    } else {
        let mut text = decimal_text(n / 10);
        text.append(digit_text(n % 10));
        assert(text@ == decimal((n / 10) as nat).push(digit((n % 10) as nat)));
        text
    }
}

impl RenderDataBundle {
    /// The key under which the bundle was opened.
    pub fn key(&self) -> (key: u64)
        ensures
            key == self@.key,
            key == self.tag@.key,
    {
        proof {
            lemma_tags_hold_their_fields(self.tag);
        }
        self.tag.key
    }

    /// The place of the bundle in the order of rendering: bundles with smaller indices are
    /// rendered first.
    pub fn sort_index(&self) -> (sort_index: u64)
        ensures
            sort_index == self@.sort_index,
            sort_index == self.tag@.sort_index,
    {
        proof {
            lemma_tags_hold_their_fields(self.tag);
        }
        self.tag.sort_index
    }

    /// A short description of the bundle: the key of its surface data and the number of its
    /// instances.
    pub fn describe(&self) -> (text: String)
        ensures
            text@ == "Bundle "@ + decimal(self.data.key as nat) + ": "@ + decimal(
                self.instances@.len(),
            ) + " instances"@,
    {
        let mut text = "Bundle ".to_string();
        text.append(decimal_text(self.data.key).as_str());
        text.append(": ");
        text.append(decimal_text(self.instances.len() as u64).as_str());
        text.append(" instances");
        text
    }
}

/// The model of a bundle leaves nothing of the bundle out.
pub proof fn bundles_hold_their_fields(bundle: RenderDataBundle)
    ensures
        bundle@.data == bundle.data,
        bundle@.time_to_live == bundle.time_to_live,
        bundle@.instances.len() == bundle.instances@.len(),
        forall|i: int|
            0 <= i < bundle.instances@.len() ==> bundle@.instances[i] == (
            #[trigger] bundle.instances@[i])@,
        bundle@.material == bundle.material,
        bundle@.is_skinned == bundle.is_skinned,
        bundle@.render_path == bundle.render_path,
        bundle@.decal_layer_index == bundle.decal_layer_index,
        bundle@.key == bundle.tag@.key,
        bundle@.sort_index == bundle.tag@.sort_index,
        bundle@.layout == bundle.tag@.layout,
{
}

/// The model of several bundles has each of them in its place.
pub proof fn bundle_lists_hold_their_bundles(bundles: Seq<RenderDataBundle>)
    ensures
        bundle_views(bundles).len() == bundles.len(),
        forall|i: int|
            0 <= i < bundles.len() ==> bundle_views(bundles)[i] == (#[trigger] bundles[i])@,
{
}

/// Of two bundles in rendering order, the one behind has no smaller sort index.
pub proof fn rendering_order_follows_sort_indices(bundles: Seq<BundleView>)
    ensures
        in_rendering_order(bundles) <==> forall|i: int, j: int|
            0 <= i < j < bundles.len() ==> (#[trigger] bundles[i]).sort_index <= (
            #[trigger] bundles[j]).sort_index,
{
}

/// The number that decimal digits read as.
pub open spec fn read_decimal(text: Seq<char>) -> int
    decreases text.len(),
{
    if text.len() == 0 {
        0
    } else {
        10 * read_decimal(text.drop_last()) + (text.last() as int - 48)
    }
}

/// The digits of a number read as the number. They are digits from zero to nine, at least one, and
/// zero comes first only where it is the number.
pub proof fn decimals_read_back(n: nat)
    ensures
        read_decimal(decimal(n)) == n,
        decimal(n).len() >= 1,
        forall|i: int| 0 <= i < decimal(n).len() ==> 48 <= #[trigger] decimal(n)[i] as int <= 57,
        decimal(n)[0] as int == 48 <==> n == 0,
        n == 0 ==> decimal(n).len() == 1,
    decreases n,
{
    if n < 10 {
        assert(decimal(n).drop_last().len() == 0);
        assert(read_decimal(decimal(n).drop_last()) == 0);
    } else {
        decimals_read_back(n / 10);
        assert(decimal(n).drop_last() == decimal(n / 10));
    }
}

} // verus!
