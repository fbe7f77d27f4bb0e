//! Reference data sets of FREAK features: merging, page renumbering and the
//! little-endian binary file format.
//!
//! Floating-point fields (coordinates, angle, scale) are held as their IEEE
//! 754 bit patterns, which is exactly what the file format stores.

use crate::byte_order::{
    le_bytes, le_u32_at, lemma_i32_u32_roundtrip, lemma_le_roundtrip, read_i32_le, read_u32_le,
    write_i32_le, write_u32_le,
};
use vstd::prelude::*;
use crate::hough::FeaturePoint;

verus! {

/// Bytes in a FREAK descriptor.
pub const FREAK_SUB_DIMENSION: usize = 96;

/// Pass as `old_page_no` to [`KpmRefDataSet::change_page_no`] to rename
/// every page whose number is non-negative.
pub const KPM_CHANGE_PAGE_NO_ALL_PAGES: i32 = -1;

/// A 2D coordinate; each component is the bit pattern of an `f32`.
#[derive(Clone, Copy, Debug, PartialEq, Eq)]
pub struct KpmCoord2D {
    pub x_bits: u32,
    pub y_bits: u32,
}

/// A FREAK descriptor with its orientation and scale (as `f32` bit
/// patterns) and its extremum type (1 for a maximum).
#[derive(Clone, Copy, Debug, PartialEq, Eq)]
pub struct FreakFeature {
    pub v: [u8; 96],
    pub angle_bits: u32,
    pub scale_bits: u32,
    pub maxima: i32,
}

impl Default for FreakFeature {
    /// An all-zero descriptor, angle and scale `0.0`, extremum type 0.
    fn default() -> (r: Self)
        ensures
            r.v@ == Seq::new(96, |i: int| 0u8),
            r.angle_bits == 0,
            r.scale_bits == 0,
            r.maxima == 0,
    {
        let r = FreakFeature { v: [0u8; 96], angle_bits: 0, scale_bits: 0, maxima: 0 };
        assert(r.v@ =~= Seq::new(96, |i: int| 0u8));
        r
    }
}

/// One reference feature.
#[derive(Clone, Copy, Debug, PartialEq, Eq)]
pub struct KpmRefData {
    pub coord2d: KpmCoord2D,
    pub coord3d: KpmCoord2D,
    pub feature_vec: FreakFeature,
    pub page_no: i32,
    pub ref_image_no: i32,
}

/// Size and number of one reference image.
#[derive(Clone, Copy, Debug, PartialEq, Eq)]
pub struct KpmImageInfo {
    pub image_no: i32,
    pub width: i32,
    pub height: i32,
}

/// The images of one page.
#[derive(Clone, Debug, PartialEq, Eq)]
pub struct KpmPageInfo {
    pub page_no: i32,
    pub image_num: i32,
    pub image_info: Vec<KpmImageInfo>,
}

/// A set of reference features with the pages they come from.
#[derive(Clone, Debug, PartialEq, Eq)]
pub struct KpmRefDataSet {
    pub num: i32,
    pub ref_point: Vec<KpmRefData>,
    pub page_num: i32,
    pub page_info: Vec<KpmPageInfo>,
}

/// The value of a [`KpmRefData`].
pub struct RefPointModel {
    pub c2x: u32,
    pub c2y: u32,
    pub c3x: u32,
    pub c3y: u32,
    pub v: Seq<u8>,
    pub angle: u32,
    pub scale: u32,
    pub maxima: i32,
    pub page_no: i32,
    pub ref_image_no: i32,
}

impl View for KpmRefData {
    type V = RefPointModel;

    open spec fn view(&self) -> RefPointModel {
        RefPointModel {
            c2x: self.coord2d.x_bits,
            c2y: self.coord2d.y_bits,
            c3x: self.coord3d.x_bits,
            c3y: self.coord3d.y_bits,
            v: self.feature_vec.v@,
            angle: self.feature_vec.angle_bits,
            scale: self.feature_vec.scale_bits,
            maxima: self.feature_vec.maxima,
            page_no: self.page_no,
            ref_image_no: self.ref_image_no,
        }
    }
}

/// The value of a [`KpmPageInfo`].
pub struct PageModel {
    pub page_no: i32,
    pub image_num: i32,
    pub image_info: Seq<KpmImageInfo>,
}

/// The value of a [`KpmRefDataSet`].
pub struct DataSetModel {
    pub num: i32,
    pub ref_point: Seq<RefPointModel>,
    pub page_num: i32,
    pub page_info: Seq<PageModel>,
}

impl View for KpmPageInfo {
    type V = PageModel;

    open spec fn view(&self) -> PageModel {
        PageModel { page_no: self.page_no, image_num: self.image_num, image_info: self.image_info@ }
    }
}

impl View for KpmRefDataSet {
    type V = DataSetModel;

    open spec fn view(&self) -> DataSetModel {
        DataSetModel {
            num: self.num,
            ref_point: self.ref_point@.map_values(|r: KpmRefData| r@),
            page_num: self.page_num,
            page_info: self.page_info@.map_values(|p: KpmPageInfo| p@),
        }
    }
}

/// Position of the first page numbered `no` in `pages`, or -1.
pub open spec fn find_page(pages: Seq<PageModel>, no: i32) -> int
    decreases pages.len(),
{
    if pages.len() == 0 {
        -1
    } else {
        let r = find_page(pages.drop_last(), no);
        if r >= 0 {
            r
        } else if pages.last().page_no == no {
            pages.len() - 1
        } else {
            -1
        }
    }
}

/// Adds page `p` to `acc`: its images join those of the first page with the
/// same number, or it is appended when there is none.
pub open spec fn add_page(acc: Seq<PageModel>, p: PageModel) -> Seq<PageModel> {
    let i = find_page(acc, p.page_no);
    if i >= 0 {
        let imgs = acc[i].image_info + p.image_info;
        acc.update(i, PageModel { page_no: acc[i].page_no, image_num: imgs.len() as i32, image_info: imgs })
    } else {
        acc.push(p)
    }
}

/// The pages of `acc` after adding each of `ps` in order.
pub open spec fn merge_pages(acc: Seq<PageModel>, ps: Seq<PageModel>) -> Seq<PageModel>
    decreases ps.len(),
{
    if ps.len() == 0 {
        acc
    } else {
        add_page(merge_pages(acc, ps.drop_last()), ps.last())
    }
}

/// Whether a page number is renamed by `change_page_no(old_no, _)`.
pub open spec fn renamed(page_no: i32, old_no: i32) -> bool {
    page_no == old_no || (old_no == KPM_CHANGE_PAGE_NO_ALL_PAGES && page_no >= 0)
}

proof fn lemma_find_page(pages: Seq<PageModel>, no: i32)
    ensures
        -1 <= find_page(pages, no) < pages.len(),
        find_page(pages, no) >= 0 ==> pages[find_page(pages, no)].page_no == no,
        find_page(pages, no) >= 0 ==> forall|j: int| 0 <= j < find_page(pages, no) ==> #[trigger] pages[j].page_no != no,
        find_page(pages, no) < 0 ==> forall|j: int| 0 <= j < pages.len() ==> #[trigger] pages[j].page_no != no,
    decreases pages.len(),
{
    if pages.len() > 0 {
        lemma_find_page(pages.drop_last(), no);
        let r = find_page(pages.drop_last(), no);
        if r >= 0 {
            assert forall|j: int| 0 <= j < r implies #[trigger] pages[j].page_no != no by {
                assert(pages.drop_last()[j] == pages[j]);
            }
        } else {
            assert forall|j: int| 0 <= j < pages.len() - 1 implies #[trigger] pages[j].page_no != no by {
                assert(pages.drop_last()[j] == pages[j]);
            }
        }
    }
}

/// Which page numbers a renaming touches: the one named, and with
/// [`KPM_CHANGE_PAGE_NO_ALL_PAGES`] every non-negative one (page 0
/// included); no other.
pub proof fn lemma_renamed_pages(page_no: i32, old_no: i32)
    ensures
        page_no == old_no ==> renamed(page_no, old_no),
        old_no == KPM_CHANGE_PAGE_NO_ALL_PAGES && page_no >= 0 ==> renamed(page_no, old_no),
        old_no != KPM_CHANGE_PAGE_NO_ALL_PAGES && page_no != old_no ==> !renamed(page_no, old_no),
        page_no < 0 && page_no != old_no ==> !renamed(page_no, old_no),
{
}

impl KpmRefDataSet {
    /// Appends the features of `other`, and its pages: a page whose number
    /// is already present contributes its images to that page, any other is
    /// appended. `num` and `page_num` become the new counts.
    pub fn merge(&mut self, other: KpmRefDataSet)
        ensures
            final(self)@.ref_point == old(self)@.ref_point + other@.ref_point,
            final(self)@.num == (old(self)@.ref_point.len() + other@.ref_point.len()) as i32,
            final(self)@.page_info == merge_pages(old(self)@.page_info, other@.page_info),
            final(self)@.page_num == merge_pages(old(self)@.page_info, other@.page_info).len() as i32,
    {
        let ghost other_points = other@.ref_point;
        let ghost other_pages = other@.page_info;
        let mut other = other;
        let ghost own_points = self.ref_point@;
        let ghost other_raw = other.ref_point@;
        self.ref_point.append(&mut other.ref_point);
        self.num = self.ref_point.len() as i32;
        assert(self.ref_point@.map_values(|r: KpmRefData| r@) =~= old(self)@.ref_point + other_points);
        // Reverse the other pages so that they can be taken in order by `pop`.
        let mut rev: Vec<KpmPageInfo> = Vec::new();
        while other.page_info.len() > 0
            invariant
                other.page_info@.len() + rev@.len() == other_pages.len(),
                forall|j: int| 0 <= j < other.page_info@.len() ==> #[trigger] other.page_info@[j]@ == other_pages[j],
                forall|j: int| 0 <= j < rev@.len() ==> #[trigger] rev@[j]@ == other_pages[other_pages.len() - 1 - j],
            decreases other.page_info@.len(),
        {
            let p = other.page_info.pop().unwrap();
            rev.push(p);
        }
        let ghost base = old(self)@.page_info;
        let mut done: usize = 0;
        let total = rev.len();
        while rev.len() > 0
            invariant
                total == other_pages.len(),
                rev@.len() + done == total,
                forall|j: int| 0 <= j < rev@.len() ==> #[trigger] rev@[j]@ == other_pages[total - 1 - j],
                self.page_info@.map_values(|p: KpmPageInfo| p@) == merge_pages(base, other_pages.take(done as int)),
                self.ref_point@.map_values(|r: KpmRefData| r@) == old(self)@.ref_point + other_points,
                self.num == (old(self)@.ref_point.len() + other_points.len()) as i32,
            decreases rev@.len(),
        {
            let mut other_page = rev.pop().unwrap();
            let ghost acc = self.page_info@.map_values(|p: KpmPageInfo| p@);
            let ghost pm = other_page@;
            proof {
                assert(other_pages.take(done + 1).drop_last() =~= other_pages.take(done as int));
                assert(other_pages.take(done + 1).last() == pm);
                lemma_find_page(acc, pm.page_no);
            }
            let mut found: usize = 0;
            let mut is_found: bool = false;
            let mut i: usize = 0;
            while i < self.page_info.len()
                invariant
                    i <= self.page_info@.len(),
                    acc == self.page_info@.map_values(|p: KpmPageInfo| p@),
                    acc.len() == self.page_info@.len(),
                    !is_found ==> forall|j: int| 0 <= j < i ==> #[trigger] acc[j].page_no != pm.page_no,
                    is_found ==> found < self.page_info@.len() && found == find_page(acc, pm.page_no),
                    pm == other_page@,
                    -1 <= find_page(acc, pm.page_no) < acc.len(),
                    find_page(acc, pm.page_no) >= 0 ==> acc[find_page(acc, pm.page_no)].page_no == pm.page_no,
                    find_page(acc, pm.page_no) >= 0 ==> forall|j: int| 0 <= j < find_page(acc, pm.page_no) ==> #[trigger] acc[j].page_no != pm.page_no,
                    find_page(acc, pm.page_no) < 0 ==> forall|j: int| 0 <= j < acc.len() ==> #[trigger] acc[j].page_no != pm.page_no,
                decreases self.page_info@.len() - i,
            {
                if !is_found && self.page_info[i].page_no == other_page.page_no {
                    assert(acc[i as int] == self.page_info@[i as int]@);
                    assert(acc[i as int].page_no == pm.page_no);
                    proof {
                        let fp = find_page(acc, pm.page_no);
                        if fp >= 0 && fp < i {
                            assert(acc[fp].page_no == pm.page_no);
                        }
                    }
                    is_found = true;
                    found = i;
                }
                i = i + 1;
            }
            if is_found {
                let mut existing = self.page_info.remove(found);
                existing.image_info.append(&mut other_page.image_info);
                existing.image_num = existing.image_info.len() as i32;
                self.page_info.insert(found, existing);
                proof {
                    assert(self.page_info@.map_values(|p: KpmPageInfo| p@) =~= add_page(acc, pm));
                }
            } else {
                proof {
                    assert forall|j: int| 0 <= j < acc.len() implies #[trigger] acc[j].page_no != pm.page_no by {
                        assert(acc[j] == self.page_info@[j]@);
                    }
                }
                self.page_info.push(other_page);
                proof {
                    assert(self.page_info@.map_values(|p: KpmPageInfo| p@) =~= add_page(acc, pm));
                }
            }
            done = done + 1;
        }
        proof {
            assert(other_pages.take(total as int) =~= other_pages);
        }
        self.page_num = self.page_info.len() as i32;
    }

    /// Renames page `old_page_no` to `new_page_no` in every feature and page
    /// entry; with [`KPM_CHANGE_PAGE_NO_ALL_PAGES`] every non-negative page
    /// number is renamed.
    pub fn change_page_no(&mut self, old_page_no: i32, new_page_no: i32)
        ensures
            final(self)@.num == old(self)@.num,
            final(self)@.page_num == old(self)@.page_num,
            final(self)@.ref_point.len() == old(self)@.ref_point.len(),
            forall|j: int| 0 <= j < old(self)@.ref_point.len() ==> #[trigger] final(self)@.ref_point[j] == (RefPointModel {
                page_no: if renamed(old(self)@.ref_point[j].page_no, old_page_no) { new_page_no } else { old(self)@.ref_point[j].page_no },
                ..old(self)@.ref_point[j]
            }),
            final(self)@.page_info.len() == old(self)@.page_info.len(),
            forall|j: int| 0 <= j < old(self)@.page_info.len() ==> #[trigger] final(self)@.page_info[j] == (PageModel {
                page_no: if renamed(old(self)@.page_info[j].page_no, old_page_no) { new_page_no } else { old(self)@.page_info[j].page_no },
                ..old(self)@.page_info[j]
            }),
            old_page_no == KPM_CHANGE_PAGE_NO_ALL_PAGES ==> forall|j: int|
                0 <= j < old(self)@.ref_point.len() && old(self)@.ref_point[j].page_no >= 0 ==> #[trigger] final(self)@.ref_point[j].page_no == new_page_no,
            old_page_no == KPM_CHANGE_PAGE_NO_ALL_PAGES ==> forall|j: int|
                0 <= j < old(self)@.page_info.len() && old(self)@.page_info[j].page_no >= 0 ==> #[trigger] final(self)@.page_info[j].page_no == new_page_no,
            forall|j: int|
                0 <= j < old(self)@.ref_point.len() && old(self)@.ref_point[j].page_no == old_page_no ==> #[trigger] final(self)@.ref_point[j].page_no == new_page_no,
            forall|j: int|
                0 <= j < old(self)@.page_info.len() && old(self)@.page_info[j].page_no == old_page_no ==> #[trigger] final(self)@.page_info[j].page_no == new_page_no,
            old_page_no != KPM_CHANGE_PAGE_NO_ALL_PAGES ==> forall|j: int|
                0 <= j < old(self)@.ref_point.len() && old(self)@.ref_point[j].page_no != old_page_no ==> #[trigger] final(self)@.ref_point[j].page_no == old(self)@.ref_point[j].page_no,
            old_page_no != KPM_CHANGE_PAGE_NO_ALL_PAGES ==> forall|j: int|
                0 <= j < old(self)@.page_info.len() && old(self)@.page_info[j].page_no != old_page_no ==> #[trigger] final(self)@.page_info[j].page_no == old(self)@.page_info[j].page_no,
    {
        let mut i: usize = 0;
        while i < self.ref_point.len()
            invariant
                i <= self.ref_point@.len(),
                self.ref_point@.len() == old(self)@.ref_point.len(),
                self.num == old(self).num,
                self.page_num == old(self).page_num,
                self.page_info == old(self).page_info,
                forall|j: int| 0 <= j < i ==> #[trigger] self.ref_point@[j]@ == (RefPointModel {
                    page_no: if renamed(old(self)@.ref_point[j].page_no, old_page_no) { new_page_no } else { old(self)@.ref_point[j].page_no },
                    ..old(self)@.ref_point[j]
                }),
                forall|j: int| i <= j < self.ref_point@.len() ==> #[trigger] self.ref_point@[j]@ == old(self)@.ref_point[j],
            decreases self.ref_point@.len() - i,
        {
            let mut rp = self.ref_point[i];
            if rp.page_no == old_page_no || (old_page_no == KPM_CHANGE_PAGE_NO_ALL_PAGES && rp.page_no >= 0) {
                rp.page_no = new_page_no;
            }
            let ghost before = self.ref_point@;
            self.ref_point.set(i, rp);
            assert(before[i as int]@ == old(self)@.ref_point[i as int]);
            assert(self.ref_point@[i as int]@ == (RefPointModel {
                page_no: if renamed(old(self)@.ref_point[i as int].page_no, old_page_no) { new_page_no } else { old(self)@.ref_point[i as int].page_no },
                ..old(self)@.ref_point[i as int]
            }));
            i = i + 1;
        }
        let mut i: usize = 0;
        while i < self.page_info.len()
            invariant
                i <= self.page_info@.len(),
                self.page_info@.len() == old(self)@.page_info.len(),
                self.num == old(self).num,
                self.page_num == old(self).page_num,
                self.ref_point@.len() == old(self)@.ref_point.len(),
                forall|j: int| 0 <= j < old(self)@.ref_point.len() ==> #[trigger] self.ref_point@[j]@ == (RefPointModel {
                    page_no: if renamed(old(self)@.ref_point[j].page_no, old_page_no) { new_page_no } else { old(self)@.ref_point[j].page_no },
                    ..old(self)@.ref_point[j]
                }),
                forall|j: int| 0 <= j < i ==> #[trigger] self.page_info@[j]@ == (PageModel {
                    page_no: if renamed(old(self)@.page_info[j].page_no, old_page_no) { new_page_no } else { old(self)@.page_info[j].page_no },
                    ..old(self)@.page_info[j]
                }),
                forall|j: int| i <= j < self.page_info@.len() ==> #[trigger] self.page_info@[j]@ == old(self)@.page_info[j],
            decreases self.page_info@.len() - i,
        {
            let ghost before = self.page_info@;
            let mut pi = self.page_info.remove(i);
            if pi.page_no == old_page_no || (old_page_no == KPM_CHANGE_PAGE_NO_ALL_PAGES && pi.page_no >= 0) {
                pi.page_no = new_page_no;
            }
            self.page_info.insert(i, pi);
            assert(self.page_info@ =~= before.update(i as int, pi));
            assert(before[i as int]@ == old(self)@.page_info[i as int]);
            assert(self.page_info@[i as int]@ == (PageModel {
                page_no: if renamed(old(self)@.page_info[i as int].page_no, old_page_no) { new_page_no } else { old(self)@.page_info[i as int].page_no },
                ..old(self)@.page_info[i as int]
            }));
            i = i + 1;
        }
    }
}

// ---------------------------------------------------------------------
// Binary format
// ---------------------------------------------------------------------

/// Bytes of one serialised reference feature.
pub const REF_POINT_BYTES: usize = 132;

/// Why a byte string is not a reference data set.
#[derive(Clone, Copy, Debug, PartialEq, Eq)]
pub enum LoadError {
    /// The bytes end before the data set does.
    UnexpectedEof,
    /// The feature count is zero or negative.
    NonPositiveNum,
    /// The page count is zero or negative.
    NonPositivePageNum,
}

/// The signed word stored little-endian at `pos`.
pub open spec fn i32_at(b: Seq<u8>, pos: int) -> i32 {
    le_u32_at(b, pos) as i32
}

/// The reference feature stored at `pos`.
#[verifier::opaque]
pub open spec fn point_at(b: Seq<u8>, pos: int) -> RefPointModel {
    RefPointModel {
        c2x: le_u32_at(b, pos),
        c2y: le_u32_at(b, pos + 4),
        c3x: le_u32_at(b, pos + 8),
        c3y: le_u32_at(b, pos + 12),
        v: b.subrange(pos + 16, pos + 112),
        angle: le_u32_at(b, pos + 112),
        scale: le_u32_at(b, pos + 116),
        maxima: i32_at(b, pos + 120),
        page_no: i32_at(b, pos + 124),
        ref_image_no: i32_at(b, pos + 128),
    }
}

/// The image record stored at `pos` (width, height, image number).
#[verifier::opaque]
pub open spec fn image_at(b: Seq<u8>, pos: int) -> KpmImageInfo {
    KpmImageInfo { width: i32_at(b, pos), height: i32_at(b, pos + 4), image_no: i32_at(b, pos + 8) }
}

/// Outcome of reading page records.
pub enum PagesParse {
    /// The pages, and the position after them.
    Parsed(Seq<PageModel>, int),
    /// The bytes end inside a page record.
    Eof,
    /// A page announces a negative number of images.
    NegativeImageCount,
}

/// Outcome of reading a whole data set.
pub enum LoadOutcome {
    Loaded(DataSetModel),
    Failed(LoadError),
    /// The input announces a negative image count, which the format cannot
    /// represent.
    Aborts,
}

/// `pre` followed by the pages of a successful parse.
pub open spec fn prepend_pages(pre: Seq<PageModel>, r: PagesParse) -> PagesParse {
    match r {
        PagesParse::Parsed(rest, e) => PagesParse::Parsed(pre + rest, e),
        PagesParse::Eof => PagesParse::Eof,
        PagesParse::NegativeImageCount => PagesParse::NegativeImageCount,
    }
}

/// Reads `count` page records from `pos`.
pub open spec fn parse_pages(b: Seq<u8>, pos: int, count: nat) -> PagesParse
    decreases count,
{
    if count == 0 {
        PagesParse::Parsed(Seq::empty(), pos)
    } else if pos + 8 > b.len() {
        PagesParse::Eof
    } else {
        let n = i32_at(b, pos + 4);
        if n < 0 {
            PagesParse::NegativeImageCount
        } else if pos + 8 + 12 * n > b.len() {
            PagesParse::Eof
        } else {
            let page = PageModel {
                page_no: i32_at(b, pos),
                image_num: n,
                image_info: Seq::new(n as nat, |t: int| image_at(b, pos + 8 + 12 * t)),
            };
            prepend_pages(seq![page], parse_pages(b, pos + 8 + 12 * n, (count - 1) as nat))
        }
    }
}

/// Reads a data set: the feature count, the features, the page count and
/// the pages. Bytes after the last page are ignored.
pub open spec fn spec_load(b: Seq<u8>) -> LoadOutcome {
    if b.len() < 4 {
        LoadOutcome::Failed(LoadError::UnexpectedEof)
    } else {
        let num = i32_at(b, 0);
        if num <= 0 {
            LoadOutcome::Failed(LoadError::NonPositiveNum)
        } else if 8 + 132 * num > b.len() {
            LoadOutcome::Failed(LoadError::UnexpectedEof)
        } else {
            let page_num = i32_at(b, 4 + 132 * num);
            if page_num <= 0 {
                LoadOutcome::Failed(LoadError::NonPositivePageNum)
            } else {
                match parse_pages(b, 8 + 132 * num, page_num as nat) {
                    PagesParse::Parsed(pages, _) => LoadOutcome::Loaded(
                        DataSetModel {
                            num: num,
                            ref_point: Seq::new(num as nat, |t: int| point_at(b, 4 + 132 * t)),
                            page_num: page_num,
                            page_info: pages,
                        },
                    ),
                    PagesParse::Eof => LoadOutcome::Failed(LoadError::UnexpectedEof),
                    PagesParse::NegativeImageCount => LoadOutcome::Aborts,
                }
            }
        }
    }
}

/// The bytes of one reference feature.
#[verifier::opaque]
pub open spec fn ser_point(p: RefPointModel) -> Seq<u8> {
    le_bytes(p.c2x) + le_bytes(p.c2y) + le_bytes(p.c3x) + le_bytes(p.c3y) + p.v + le_bytes(p.angle)
        + le_bytes(p.scale) + le_bytes(p.maxima as u32) + le_bytes(p.page_no as u32) + le_bytes(
        p.ref_image_no as u32,
    )
}

/// The bytes of a sequence of reference features.
pub open spec fn ser_points(ps: Seq<RefPointModel>) -> Seq<u8>
    decreases ps.len(),
{
    if ps.len() == 0 {
        Seq::empty()
    } else {
        ser_points(ps.drop_last()) + ser_point(ps.last())
    }
}

/// The bytes of one image record.
pub open spec fn ser_image(i: KpmImageInfo) -> Seq<u8> {
    le_bytes(i.width as u32) + le_bytes(i.height as u32) + le_bytes(i.image_no as u32)
}

/// The bytes of a sequence of image records.
pub open spec fn ser_images(is: Seq<KpmImageInfo>) -> Seq<u8>
    decreases is.len(),
{
    if is.len() == 0 {
        Seq::empty()
    } else {
        ser_images(is.drop_last()) + ser_image(is.last())
    }
}

/// The bytes of one page record: number, image count, images.
pub open spec fn ser_page(p: PageModel) -> Seq<u8> {
    le_bytes(p.page_no as u32) + le_bytes(p.image_num as u32) + ser_images(p.image_info)
}

/// The bytes of a sequence of page records.
pub open spec fn ser_pages(ps: Seq<PageModel>) -> Seq<u8>
    decreases ps.len(),
{
    if ps.len() == 0 {
        Seq::empty()
    } else {
        ser_page(ps[0]) + ser_pages(ps.drop_first())
    }
}

/// The bytes of a data set: its feature count, all its features, its page
/// count and all its pages.
pub open spec fn ser_data_set(m: DataSetModel) -> Seq<u8> {
    le_bytes(m.num as u32) + ser_points(m.ref_point) + le_bytes(m.page_num as u32) + ser_pages(
        m.page_info,
    )
}

/// The counts of a data set agree with its contents, and are positive.
pub open spec fn consistent(m: DataSetModel) -> bool {
    &&& m.num > 0
    &&& m.num as int == m.ref_point.len()
    &&& m.page_num > 0
    &&& m.page_num as int == m.page_info.len()
    &&& forall|j: int| 0 <= j < m.ref_point.len() ==> (#[trigger] m.ref_point[j]).v.len() == 96
    &&& forall|j: int| 0 <= j < m.page_info.len() ==> (#[trigger] m.page_info[j]).image_num as int == m.page_info[j].image_info.len()
}

proof fn lemma_word_at(b: Seq<u8>, pos: int, n: u32)
    requires
        0 <= pos,
        pos + 4 <= b.len(),
        b.subrange(pos, pos + 4) == le_bytes(n),
    ensures
        le_u32_at(b, pos) == n,
{
    lemma_le_roundtrip(n);
    assert(b[pos] == b.subrange(pos, pos + 4)[0]);
    assert(b[pos + 1] == b.subrange(pos, pos + 4)[1]);
    assert(b[pos + 2] == b.subrange(pos, pos + 4)[2]);
    assert(b[pos + 3] == b.subrange(pos, pos + 4)[3]);
}

proof fn lemma_ser_point_len(p: RefPointModel)
    requires
        p.v.len() == 96,
    ensures
        ser_point(p).len() == 132,
{
    reveal(ser_point);
}

/// A feature written at `pre.len()` is read back there.
proof fn lemma_point_roundtrip(pre: Seq<u8>, p: RefPointModel, post: Seq<u8>)
    requires
        p.v.len() == 96,
    ensures
        point_at(pre + ser_point(p) + post, pre.len() as int) == p,
{
    reveal(ser_point);
    reveal(point_at);
    let b = pre + ser_point(p) + post;
    let o = pre.len() as int;
    let x = ser_point(p);
    assert(b.subrange(o, o + 132) =~= x);
    assert(x.subrange(0, 4) =~= le_bytes(p.c2x));
    assert(x.subrange(4, 8) =~= le_bytes(p.c2y));
    assert(x.subrange(8, 12) =~= le_bytes(p.c3x));
    assert(x.subrange(12, 16) =~= le_bytes(p.c3y));
    assert(x.subrange(16, 112) =~= p.v);
    assert(x.subrange(112, 116) =~= le_bytes(p.angle));
    assert(x.subrange(116, 120) =~= le_bytes(p.scale));
    assert(x.subrange(120, 124) =~= le_bytes(p.maxima as u32));
    assert(x.subrange(124, 128) =~= le_bytes(p.page_no as u32));
    assert(x.subrange(128, 132) =~= le_bytes(p.ref_image_no as u32));
    assert(b.subrange(o, o + 4) =~= x.subrange(0, 4));
    assert(b.subrange(o + 4, o + 8) =~= x.subrange(4, 8));
    assert(b.subrange(o + 8, o + 12) =~= x.subrange(8, 12));
    assert(b.subrange(o + 12, o + 16) =~= x.subrange(12, 16));
    assert(b.subrange(o + 16, o + 112) =~= x.subrange(16, 112));
    assert(b.subrange(o + 112, o + 116) =~= x.subrange(112, 116));
    assert(b.subrange(o + 116, o + 120) =~= x.subrange(116, 120));
    assert(b.subrange(o + 120, o + 124) =~= x.subrange(120, 124));
    assert(b.subrange(o + 124, o + 128) =~= x.subrange(124, 128));
    assert(b.subrange(o + 128, o + 132) =~= x.subrange(128, 132));
    lemma_word_at(b, o, p.c2x);
    lemma_word_at(b, o + 4, p.c2y);
    lemma_word_at(b, o + 8, p.c3x);
    lemma_word_at(b, o + 12, p.c3y);
    lemma_word_at(b, o + 112, p.angle);
    lemma_word_at(b, o + 116, p.scale);
    lemma_word_at(b, o + 120, p.maxima as u32);
    lemma_word_at(b, o + 124, p.page_no as u32);
    lemma_word_at(b, o + 128, p.ref_image_no as u32);
    lemma_i32_u32_roundtrip(p.maxima);
    lemma_i32_u32_roundtrip(p.page_no);
    lemma_i32_u32_roundtrip(p.ref_image_no);
}

/// Features written one after another are read back at their offsets.
proof fn lemma_points_roundtrip(pre: Seq<u8>, ps: Seq<RefPointModel>, post: Seq<u8>)
    requires
        forall|j: int| 0 <= j < ps.len() ==> (#[trigger] ps[j]).v.len() == 96,
    ensures
        ser_points(ps).len() == 132 * ps.len(),
        forall|t: int| 0 <= t < ps.len() ==> #[trigger] point_at(pre + ser_points(ps) + post, pre.len() + 132 * t) == ps[t],
    decreases ps.len(),
{
    if ps.len() > 0 {
        let init = ps.drop_last();
        let last = ps.last();
        lemma_points_roundtrip(pre, init, ser_point(last) + post);
        lemma_ser_point_len(last);
        let b = pre + ser_points(ps) + post;
        assert(b =~= pre + ser_points(init) + (ser_point(last) + post));
        assert(b =~= (pre + ser_points(init)) + ser_point(last) + post);
        lemma_point_roundtrip(pre + ser_points(init), last, post);
        assert forall|t: int| 0 <= t < ps.len() implies #[trigger] point_at(b, pre.len() + 132 * t) == ps[t] by {
            if t < ps.len() - 1 {
                assert(point_at(pre + ser_points(init) + (ser_point(last) + post), pre.len() + 132 * t) == init[t]);
            }
        }
    }
}

proof fn lemma_images_roundtrip(pre: Seq<u8>, is: Seq<KpmImageInfo>, post: Seq<u8>)
    ensures
        ser_images(is).len() == 12 * is.len(),
        forall|t: int| 0 <= t < is.len() ==> #[trigger] image_at(pre + ser_images(is) + post, pre.len() + 12 * t) == is[t],
    decreases is.len(),
{
    if is.len() > 0 {
        let init = is.drop_last();
        let last = is.last();
        lemma_images_roundtrip(pre, init, ser_image(last) + post);
        let b = pre + ser_images(is) + post;
        assert(b =~= pre + ser_images(init) + (ser_image(last) + post));
        reveal(image_at);
        let o = (pre.len() + ser_images(init).len()) as int;
        let x = ser_image(last);
        assert(b.subrange(o, o + 4) =~= le_bytes(last.width as u32));
        assert(b.subrange(o + 4, o + 8) =~= le_bytes(last.height as u32));
        assert(b.subrange(o + 8, o + 12) =~= le_bytes(last.image_no as u32));
        lemma_word_at(b, o, last.width as u32);
        lemma_word_at(b, o + 4, last.height as u32);
        lemma_word_at(b, o + 8, last.image_no as u32);
        lemma_i32_u32_roundtrip(last.width);
        lemma_i32_u32_roundtrip(last.height);
        lemma_i32_u32_roundtrip(last.image_no);
        assert forall|t: int| 0 <= t < is.len() implies #[trigger] image_at(b, pre.len() + 12 * t) == is[t] by {
            if t < is.len() - 1 {
                assert(image_at(pre + ser_images(init) + (ser_image(last) + post), pre.len() + 12 * t) == init[t]);
            }
        }
    }
}

/// A page record written at `pre.len()` is read back there.
proof fn lemma_page_roundtrip(pre: Seq<u8>, p: PageModel, post: Seq<u8>)
    requires
        p.image_num as int == p.image_info.len(),
    ensures
        ser_page(p).len() == 8 + 12 * p.image_info.len(),
        ({
            let b = pre + ser_page(p) + post;
            let o = pre.len() as int;
            &&& i32_at(b, o) == p.page_no
            &&& i32_at(b, o + 4) == p.image_num
            &&& Seq::new(p.image_num as nat, |t: int| image_at(b, o + 8 + 12 * t)) == p.image_info
        }),
{
    let b = pre + ser_page(p) + post;
    let o = pre.len() as int;
    let head = pre + le_bytes(p.page_no as u32) + le_bytes(p.image_num as u32);
    lemma_images_roundtrip(head, p.image_info, post);
    assert(b =~= head + ser_images(p.image_info) + post);
    assert(b.subrange(o, o + 4) =~= le_bytes(p.page_no as u32));
    assert(b.subrange(o + 4, o + 8) =~= le_bytes(p.image_num as u32));
    lemma_word_at(b, o, p.page_no as u32);
    lemma_word_at(b, o + 4, p.image_num as u32);
    lemma_i32_u32_roundtrip(p.page_no);
    lemma_i32_u32_roundtrip(p.image_num);
    assert(Seq::new(p.image_num as nat, |t: int| image_at(b, o + 8 + 12 * t)) =~= p.image_info);
}

/// Pages written one after another are read back, and reading stops right
/// after them.
proof fn lemma_pages_roundtrip(pre: Seq<u8>, ps: Seq<PageModel>, post: Seq<u8>)
    requires
        forall|j: int| 0 <= j < ps.len() ==> (#[trigger] ps[j]).image_num as int == ps[j].image_info.len(),
    ensures
        parse_pages(pre + ser_pages(ps) + post, pre.len() as int, ps.len()) == PagesParse::Parsed(
            ps,
            (pre.len() + ser_pages(ps).len()) as int,
        ),
    decreases ps.len(),
{
    if ps.len() == 0 {
        assert(ser_pages(ps).len() == 0);
        assert(ps =~= Seq::<PageModel>::empty());
    } else {
        let p = ps[0];
        let rest = ps.drop_first();
        let b = pre + ser_pages(ps) + post;
        let o = pre.len() as int;
        assert(ser_pages(ps) == ser_page(p) + ser_pages(rest));
        assert(b =~= pre + ser_page(p) + (ser_pages(rest) + post));
        lemma_page_roundtrip(pre, p, ser_pages(rest) + post);
        assert(b =~= (pre + ser_page(p)) + ser_pages(rest) + post);
        assert forall|j: int| 0 <= j < rest.len() implies (#[trigger] rest[j]).image_num as int == rest[j].image_info.len() by {
            assert(rest[j] == ps[j + 1]);
        }
        lemma_pages_roundtrip(pre + ser_page(p), rest, post);
        let n = p.image_num;
        let page = PageModel {
            page_no: i32_at(b, o),
            image_num: n,
            image_info: Seq::new(n as nat, |t: int| image_at(b, o + 8 + 12 * t)),
        };
        assert(page == p);
        assert(o + 8 + 12 * n == (pre + ser_page(p)).len());
        assert(seq![page] + rest =~= ps);
        assert(o + 8 + 12 * n <= b.len());
        assert(i32_at(b, o + 4) == n);
        assert(n >= 0);
        assert(parse_pages(b, o + 8 + 12 * n, rest.len()) == PagesParse::Parsed(
            rest,
            ((pre + ser_page(p)).len() + ser_pages(rest).len()) as int,
        ));
        assert(parse_pages(b, o, ps.len()) == prepend_pages(seq![page], parse_pages(b, o + 8 + 12 * n, rest.len())));
    }
}

/// The fields of a serialised feature, at their byte offsets.
proof fn lemma_ser_point_fields(p: RefPointModel)
    requires
        p.v.len() == 96,
    ensures
        ser_point(p).len() == 132,
        ser_point(p).subrange(0, 4) == le_bytes(p.c2x),
        ser_point(p).subrange(4, 8) == le_bytes(p.c2y),
        ser_point(p).subrange(8, 12) == le_bytes(p.c3x),
        ser_point(p).subrange(12, 16) == le_bytes(p.c3y),
        ser_point(p).subrange(16, 112) == p.v,
        ser_point(p).subrange(112, 116) == le_bytes(p.angle),
        ser_point(p).subrange(116, 120) == le_bytes(p.scale),
        ser_point(p).subrange(120, 124) == le_bytes(p.maxima as u32),
        ser_point(p).subrange(124, 128) == le_bytes(p.page_no as u32),
        ser_point(p).subrange(128, 132) == le_bytes(p.ref_image_no as u32),
{
    reveal(ser_point);
    let x = ser_point(p);
    assert(x.subrange(0, 4) =~= le_bytes(p.c2x));
    assert(x.subrange(4, 8) =~= le_bytes(p.c2y));
    assert(x.subrange(8, 12) =~= le_bytes(p.c3x));
    assert(x.subrange(12, 16) =~= le_bytes(p.c3y));
    assert(x.subrange(16, 112) =~= p.v);
    assert(x.subrange(112, 116) =~= le_bytes(p.angle));
    assert(x.subrange(116, 120) =~= le_bytes(p.scale));
    assert(x.subrange(120, 124) =~= le_bytes(p.maxima as u32));
    assert(x.subrange(124, 128) =~= le_bytes(p.page_no as u32));
    assert(x.subrange(128, 132) =~= le_bytes(p.ref_image_no as u32));
}

/// Feature `t` of a list is serialised at byte `132 * t`.
proof fn lemma_ser_points_slot(ps: Seq<RefPointModel>, t: int)
    requires
        forall|j: int| 0 <= j < ps.len() ==> (#[trigger] ps[j]).v.len() == 96,
        0 <= t < ps.len(),
    ensures
        ser_points(ps).len() == 132 * ps.len(),
        ser_points(ps).subrange(132 * t, 132 * t + 132) == ser_point(ps[t]),
    decreases ps.len(),
{
    let init = ps.drop_last();
    let last = ps.last();
    lemma_ser_point_len(last);
    if t < ps.len() - 1 {
        lemma_ser_points_slot(init, t);
        assert(ser_points(ps).subrange(132 * t, 132 * t + 132) =~= ser_points(init).subrange(132 * t, 132 * t + 132));
    } else {
        if init.len() > 0 {
            lemma_ser_points_slot(init, 0);
        }
        assert(ser_points(init).len() == 132 * init.len());
        assert(ser_points(ps).subrange(132 * t, 132 * t + 132) =~= ser_point(last));
    }
}

/// The byte layout of a saved data set: the feature count, then feature `t`
/// at byte `4 + 132 * t`, whose fields lie at fixed offsets: 2D `x` and
/// `y`, 3D `x` and `y`, the 96 descriptor bytes, angle, scale, extremum
/// type, page number and image number, each word little-endian.
pub proof fn lemma_saved_feature_layout(m: DataSetModel, t: int)
    requires
        forall|j: int| 0 <= j < m.ref_point.len() ==> (#[trigger] m.ref_point[j]).v.len() == 96,
        0 <= t < m.ref_point.len(),
    ensures
        ser_data_set(m).subrange(0, 4) == le_bytes(m.num as u32),
        ser_data_set(m).subrange(4 + 132 * t, 8 + 132 * t) == le_bytes(m.ref_point[t].c2x),
        ser_data_set(m).subrange(8 + 132 * t, 12 + 132 * t) == le_bytes(m.ref_point[t].c2y),
        ser_data_set(m).subrange(12 + 132 * t, 16 + 132 * t) == le_bytes(m.ref_point[t].c3x),
        ser_data_set(m).subrange(16 + 132 * t, 20 + 132 * t) == le_bytes(m.ref_point[t].c3y),
        ser_data_set(m).subrange(20 + 132 * t, 116 + 132 * t) == m.ref_point[t].v,
        ser_data_set(m).subrange(116 + 132 * t, 120 + 132 * t) == le_bytes(m.ref_point[t].angle),
        ser_data_set(m).subrange(120 + 132 * t, 124 + 132 * t) == le_bytes(m.ref_point[t].scale),
        ser_data_set(m).subrange(124 + 132 * t, 128 + 132 * t) == le_bytes(m.ref_point[t].maxima as u32),
        ser_data_set(m).subrange(128 + 132 * t, 132 + 132 * t) == le_bytes(m.ref_point[t].page_no as u32),
        ser_data_set(m).subrange(132 + 132 * t, 136 + 132 * t) == le_bytes(m.ref_point[t].ref_image_no as u32),
{
    let b = ser_data_set(m);
    let x = ser_points(m.ref_point);
    let p = m.ref_point[t];
    lemma_ser_points_slot(m.ref_point, t);
    lemma_ser_point_fields(p);
    let o = 4 + 132 * t;
    assert(b.subrange(0, 4) =~= le_bytes(m.num as u32));
    assert(b.subrange(o, o + 132) =~= x.subrange(132 * t, 132 * t + 132));
    let y = ser_point(p);
    assert(b.subrange(o, o + 4) =~= y.subrange(0, 4));
    assert(b.subrange(o + 4, o + 8) =~= y.subrange(4, 8));
    assert(b.subrange(o + 8, o + 12) =~= y.subrange(8, 12));
    assert(b.subrange(o + 12, o + 16) =~= y.subrange(12, 16));
    assert(b.subrange(o + 16, o + 112) =~= y.subrange(16, 112));
    assert(b.subrange(o + 112, o + 116) =~= y.subrange(112, 116));
    assert(b.subrange(o + 116, o + 120) =~= y.subrange(116, 120));
    assert(b.subrange(o + 120, o + 124) =~= y.subrange(120, 124));
    assert(b.subrange(o + 124, o + 128) =~= y.subrange(124, 128));
    assert(b.subrange(o + 128, o + 132) =~= y.subrange(128, 132));
}

/// What loading reads: the feature count from byte 0, and feature `t` from
/// byte `4 + 132 * t`, its words at the fixed offsets of the saved layout
/// (2D `x`, `y`, 3D `x`, `y`, descriptor, angle, scale, extremum type, page
/// and image number).
pub proof fn lemma_loaded_feature_layout(b: Seq<u8>)
    ensures
        spec_load(b) matches LoadOutcome::Loaded(m) ==> {
            &&& m.num == i32_at(b, 0)
            &&& m.ref_point.len() == m.num
            &&& forall|t: int|
                0 <= t < m.ref_point.len() ==> {
                    let o = 4 + 132 * t;
                    &&& (#[trigger] m.ref_point[t]).c2x == le_u32_at(b, o)
                    &&& m.ref_point[t].c2y == le_u32_at(b, o + 4)
                    &&& m.ref_point[t].c3x == le_u32_at(b, o + 8)
                    &&& m.ref_point[t].c3y == le_u32_at(b, o + 12)
                    &&& m.ref_point[t].v == b.subrange(o + 16, o + 112)
                    &&& m.ref_point[t].angle == le_u32_at(b, o + 112)
                    &&& m.ref_point[t].scale == le_u32_at(b, o + 116)
                    &&& m.ref_point[t].maxima == i32_at(b, o + 120)
                    &&& m.ref_point[t].page_no == i32_at(b, o + 124)
                    &&& m.ref_point[t].ref_image_no == i32_at(b, o + 128)
                }
        },
{
    reveal(point_at);
}

/// Loading the bytes of a consistent data set gives the data set back.
pub proof fn lemma_load_save_roundtrip(m: DataSetModel)
    requires
        consistent(m),
    ensures
        spec_load(ser_data_set(m)) == LoadOutcome::Loaded(m),
{
    let b = ser_data_set(m);
    let pts = ser_points(m.ref_point);
    lemma_points_roundtrip(le_bytes(m.num as u32), m.ref_point, le_bytes(m.page_num as u32) + ser_pages(m.page_info));
    assert(b =~= le_bytes(m.num as u32) + pts + (le_bytes(m.page_num as u32) + ser_pages(m.page_info)));
    let num = m.num;
    assert(b.subrange(0, 4) =~= le_bytes(num as u32));
    lemma_word_at(b, 0, num as u32);
    lemma_i32_u32_roundtrip(num);
    let o = 4 + 132 * num;
    assert(b.subrange(o, o + 4) =~= le_bytes(m.page_num as u32));
    lemma_word_at(b, o, m.page_num as u32);
    lemma_i32_u32_roundtrip(m.page_num);
    lemma_pages_roundtrip(le_bytes(num as u32) + pts + le_bytes(m.page_num as u32), m.page_info, Seq::empty());
    assert(b =~= (le_bytes(num as u32) + pts + le_bytes(m.page_num as u32)) + ser_pages(m.page_info) + Seq::empty());
    assert(Seq::new(num as nat, |t: int| point_at(b, 4 + 132 * t)) =~= m.ref_point);
}

fn push_word(out: &mut Vec<u8>, w: [u8; 4])
    ensures
        final(out)@ == old(out)@ + w@,
{
    out.push(w[0]);
    out.push(w[1]);
    out.push(w[2]);
    out.push(w[3]);
    assert(out@ =~= old(out)@ + w@);
}

fn push_u32(out: &mut Vec<u8>, n: u32)
    ensures
        final(out)@ == old(out)@ + le_bytes(n),
{
    let w = write_u32_le(n);
    push_word(out, w);
}

fn push_i32(out: &mut Vec<u8>, n: i32)
    ensures
        final(out)@ == old(out)@ + le_bytes(n as u32),
{
    let w = write_i32_le(n);
    push_word(out, w);
}

fn push_point(out: &mut Vec<u8>, rp: &KpmRefData)
    ensures
        final(out)@ == old(out)@ + ser_point(rp@),
{
    push_u32(out, rp.coord2d.x_bits);
    push_u32(out, rp.coord2d.y_bits);
    push_u32(out, rp.coord3d.x_bits);
    push_u32(out, rp.coord3d.y_bits);
    let ghost mid = out@;
    let mut k: usize = 0;
    while k < 96
        invariant
            k <= 96,
            out@ == mid + rp.feature_vec.v@.take(k as int),
        decreases 96 - k,
    {
        out.push(rp.feature_vec.v[k]);
        k = k + 1;
        assert(out@ =~= mid + rp.feature_vec.v@.take(k as int));
    }
    assert(rp.feature_vec.v@.take(96) =~= rp.feature_vec.v@);
    push_u32(out, rp.feature_vec.angle_bits);
    push_u32(out, rp.feature_vec.scale_bits);
    push_i32(out, rp.feature_vec.maxima);
    push_i32(out, rp.page_no);
    push_i32(out, rp.ref_image_no);
    proof {
        reveal(ser_point);
        assert(out@ =~= old(out)@ + ser_point(rp@));
    }
}

proof fn lemma_ser_pages_push(ps: Seq<PageModel>, p: PageModel)
    ensures
        ser_pages(ps.push(p)) == ser_pages(ps) + ser_page(p),
    decreases ps.len(),
{
    if ps.len() == 0 {
        assert(ps.push(p).drop_first() =~= Seq::<PageModel>::empty());
        assert(ser_pages(ps.push(p).drop_first()) == Seq::<u8>::empty());
        assert(ps.push(p)[0] == p);
        assert(ser_pages(ps) == Seq::<u8>::empty());
        assert(ser_pages(ps.push(p)) =~= ser_page(p));
    } else {
        lemma_ser_pages_push(ps.drop_first(), p);
        assert(ps.push(p).drop_first() =~= ps.drop_first().push(p));
        assert(ser_pages(ps.push(p)) =~= ser_pages(ps) + ser_page(p));
    }
}

fn push_page(out: &mut Vec<u8>, pi: &KpmPageInfo)
    ensures
        final(out)@ == old(out)@ + ser_page(pi@),
{
    push_i32(out, pi.page_no);
    push_i32(out, pi.image_num);
    let ghost mid = out@;
    let mut k: usize = 0;
    while k < pi.image_info.len()
        invariant
            k <= pi.image_info@.len(),
            out@ == mid + ser_images(pi.image_info@.take(k as int)),
        decreases pi.image_info@.len() - k,
    {
        let ii = pi.image_info[k];
        push_i32(out, ii.width);
        push_i32(out, ii.height);
        push_i32(out, ii.image_no);
        proof {
            let t = pi.image_info@.take(k + 1);
            assert(t.drop_last() =~= pi.image_info@.take(k as int));
            assert(out@ =~= mid + ser_images(t));
        }
        k = k + 1;
    }
    assert(pi.image_info@.take(pi.image_info@.len() as int) =~= pi.image_info@);
    assert(out@ =~= old(out)@ + ser_page(pi@));
}

impl KpmRefDataSet {
    /// The bytes of the data set in the little-endian format: the feature
    /// count, every feature, the page count and every page.
    pub fn save_to_bytes(&self) -> (r: Vec<u8>)
        ensures
            r@ == ser_data_set(self@),
    {
        let mut out: Vec<u8> = Vec::new();
        push_i32(&mut out, self.num);
        let ghost pts = self@.ref_point;
        let ghost head = out@;
        let mut j: usize = 0;
        while j < self.ref_point.len()
            invariant
                j <= self.ref_point@.len(),
                pts == self@.ref_point,
                out@ == head + ser_points(pts.take(j as int)),
            decreases self.ref_point@.len() - j,
        {
            push_point(&mut out, &self.ref_point[j]);
            proof {
                let t = pts.take(j + 1);
                assert(t.drop_last() =~= pts.take(j as int));
                assert(t.last() == self.ref_point@[j as int]@);
                assert(out@ =~= head + ser_points(t));
            }
            j = j + 1;
        }
        assert(pts.take(pts.len() as int) =~= pts);
        push_i32(&mut out, self.page_num);
        let ghost pages = self@.page_info;
        let ghost head2 = out@;
        let mut j: usize = 0;
        while j < self.page_info.len()
            invariant
                j <= self.page_info@.len(),
                pages == self@.page_info,
                out@ == head2 + ser_pages(pages.take(j as int)),
            decreases self.page_info@.len() - j,
        {
            push_page(&mut out, &self.page_info[j]);
            proof {
                lemma_ser_pages_push(pages.take(j as int), pages[j as int]);
                assert(pages.take(j as int).push(pages[j as int]) =~= pages.take(j + 1));
                assert(out@ =~= head2 + ser_pages(pages.take(j + 1)));
            }
            j = j + 1;
        }
        assert(pages.take(pages.len() as int) =~= pages);
        assert(out@ =~= ser_data_set(self@));
        out
    }
}

fn u32_at(bytes: &[u8], pos: usize) -> (r: u32)
    requires
        pos + 4 <= bytes@.len(),
    ensures
        r == le_u32_at(bytes@, pos as int),
{
    let _len = bytes.len();
    let sub = vstd::slice::slice_subrange(bytes, pos, pos + 4);
    read_u32_le(sub)
}

fn i32_at_exec(bytes: &[u8], pos: usize) -> (r: i32)
    requires
        pos + 4 <= bytes@.len(),
    ensures
        r == i32_at(bytes@, pos as int),
{
    let _len = bytes.len();
    let sub = vstd::slice::slice_subrange(bytes, pos, pos + 4);
    read_i32_le(sub)
}

fn read_point(bytes: &[u8], pos: usize) -> (r: KpmRefData)
    requires
        pos + 132 <= bytes@.len(),
    ensures
        r@ == point_at(bytes@, pos as int),
{
    let _len = bytes.len();
    let c2x = u32_at(bytes, pos);
    let c2y = u32_at(bytes, pos + 4);
    let c3x = u32_at(bytes, pos + 8);
    let c3y = u32_at(bytes, pos + 12);
    let mut v = [0u8; 96];
    let mut k: usize = 0;
    while k < 96
        invariant
            k <= 96,
            pos + 132 <= bytes@.len(),
            bytes@.len() <= usize::MAX,
            forall|t: int| 0 <= t < k ==> #[trigger] v@[t] == bytes@[pos + 16 + t],
        decreases 96 - k,
    {
        v[k] = bytes[pos + 16 + k];
        k = k + 1;
    }
    let angle = u32_at(bytes, pos + 112);
    let scale = u32_at(bytes, pos + 116);
    let maxima = i32_at_exec(bytes, pos + 120);
    let page_no = i32_at_exec(bytes, pos + 124);
    let ref_image_no = i32_at_exec(bytes, pos + 128);
    let r = KpmRefData {
        coord2d: KpmCoord2D { x_bits: c2x, y_bits: c2y },
        coord3d: KpmCoord2D { x_bits: c3x, y_bits: c3y },
        feature_vec: FreakFeature { v, angle_bits: angle, scale_bits: scale, maxima },
        page_no,
        ref_image_no,
    };
    proof {
        reveal(point_at);
        assert(v@ =~= bytes@.subrange(pos + 16, pos + 112));
    }
    r
}

fn read_image(bytes: &[u8], pos: usize) -> (r: KpmImageInfo)
    requires
        pos + 12 <= bytes@.len(),
    ensures
        r == image_at(bytes@, pos as int),
{
    let _len = bytes.len();
    let width = i32_at_exec(bytes, pos);
    let height = i32_at_exec(bytes, pos + 4);
    let image_no = i32_at_exec(bytes, pos + 8);
    proof {
        reveal(image_at);
    }
    KpmImageInfo { image_no, width, height }
}

/// Outcome of [`parse_ref_data_set`].
pub enum ParseOutcome {
    Loaded(KpmRefDataSet),
    Failed(LoadError),
    /// A page announces a negative image count.
    NegativeImageCount,
}

proof fn lemma_div_bound(len: int, n: int, w: int)
    by (nonlinear_arith)
    requires
        len >= 0,
        w > 0,
        n >= 0,
    ensures
        (len / w < n) <==> (len < w * n),
{
}

/// Reads a data set from its little-endian bytes; see [`spec_load`].
pub fn parse_ref_data_set(bytes: &[u8]) -> (r: ParseOutcome)
    ensures
        match spec_load(bytes@) {
            LoadOutcome::Loaded(m) => r matches ParseOutcome::Loaded(ds) && ds@ == m,
            LoadOutcome::Failed(e) => r matches ParseOutcome::Failed(e2) && e2 == e,
            LoadOutcome::Aborts => r is NegativeImageCount,
        },
{
    let ghost b = bytes@;
    let len = bytes.len();
    if len < 4 {
        return ParseOutcome::Failed(LoadError::UnexpectedEof);
    }
    let num = i32_at_exec(bytes, 0);
    if num <= 0 {
        return ParseOutcome::Failed(LoadError::NonPositiveNum);
    }
    proof {
        if len >= 8 {
            lemma_div_bound(len - 8, num as int, 132);
        }
    }
    if len < 8 || (len - 8) / 132 < num as usize {
        return ParseOutcome::Failed(LoadError::UnexpectedEof);
    }
    let mut ref_point: Vec<KpmRefData> = Vec::new();
    let mut t: usize = 0;
    let n_pts = num as usize;
    while t < n_pts
        invariant
            b == bytes@,
            len == b.len(),
            n_pts == num,
            8 + 132 * n_pts <= len,
            t <= n_pts,
            ref_point@.len() == t,
            forall|s: int| 0 <= s < t ==> (#[trigger] ref_point@[s])@ == point_at(b, 4 + 132 * s),
        decreases n_pts - t,
    {
        let rp = read_point(bytes, 4 + 132 * t);
        ref_point.push(rp);
        t = t + 1;
    }
    let start = 4 + 132 * n_pts;
    let page_num = i32_at_exec(bytes, start);
    if page_num <= 0 {
        return ParseOutcome::Failed(LoadError::NonPositivePageNum);
    }
    let mut page_info: Vec<KpmPageInfo> = Vec::new();
    let mut pos: usize = start + 4;
    let mut j: usize = 0;
    let n_pages = page_num as usize;
    while j < n_pages
        invariant
            b == bytes@,
            len == b.len(),
            n_pages == page_num,
            j <= n_pages,
            pos <= len,
            b.len() >= 4,
            i32_at(b, 0) == num,
            num > 0,
            8 + 132 * num <= b.len(),
            start + 4 == 8 + 132 * num,
            i32_at(b, 4 + 132 * num) == page_num,
            page_num > 0,
            parse_pages(b, start + 4, n_pages as nat) == prepend_pages(
                page_info@.map_values(|p: KpmPageInfo| p@),
                parse_pages(b, pos as int, (n_pages - j) as nat),
            ),
        decreases n_pages - j,
    {
        let ghost pages_so_far = page_info@.map_values(|p: KpmPageInfo| p@);
        if len - pos < 8 {
            assert(parse_pages(b, pos as int, (n_pages - j) as nat) == PagesParse::Eof);
            return ParseOutcome::Failed(LoadError::UnexpectedEof);
        }
        let page_no = i32_at_exec(bytes, pos);
        let image_num = i32_at_exec(bytes, pos + 4);
        if image_num < 0 {
            assert(parse_pages(b, pos as int, (n_pages - j) as nat) == PagesParse::NegativeImageCount);
            return ParseOutcome::NegativeImageCount;
        }
        proof {
            lemma_div_bound(len - pos - 8, image_num as int, 12);
        }
        if (len - pos - 8) / 12 < image_num as usize {
            assert(parse_pages(b, pos as int, (n_pages - j) as nat) == PagesParse::Eof);
            return ParseOutcome::Failed(LoadError::UnexpectedEof);
        }
        let n_img = image_num as usize;
        let mut image_info: Vec<KpmImageInfo> = Vec::new();
        let mut k: usize = 0;
        while k < n_img
            invariant
                b == bytes@,
                len == b.len(),
                pos + 8 + 12 * n_img <= len,
                k <= n_img,
                image_info@.len() == k,
                forall|s: int| 0 <= s < k ==> #[trigger] image_info@[s] == image_at(b, pos + 8 + 12 * s),
            decreases n_img - k,
        {
            let ii = read_image(bytes, pos + 8 + 12 * k);
            image_info.push(ii);
            k = k + 1;
        }
        let page = KpmPageInfo { page_no, image_num, image_info };
        proof {
            assert(page@.image_info =~= Seq::new(image_num as nat, |t: int| image_at(b, pos + 8 + 12 * t)));
        }
        page_info.push(page);
        proof {
            assert(page_info@.map_values(|p: KpmPageInfo| p@) =~= pages_so_far + seq![page@]);
            assert(pages_so_far + seq![page@] + Seq::empty() =~= pages_so_far + seq![page@]);
            let r = parse_pages(b, (pos + 8 + 12 * n_img) as int, (n_pages - j - 1) as nat);
            match r {
                PagesParse::Parsed(rest, e) => {
                    assert(pages_so_far + (seq![page@] + rest) =~= (pages_so_far + seq![page@]) + rest);
                },
                _ => {},
            }
        }
        pos = pos + 8 + 12 * n_img;
        j = j + 1;
    }
    let ds = KpmRefDataSet { num, ref_point, page_num, page_info };
    proof {
        assert(ds@.ref_point =~= Seq::new(num as nat, |t: int| point_at(b, 4 + 132 * t)));
        assert(ds@.page_info + Seq::<PageModel>::empty() =~= ds@.page_info);
    }
    ParseOutcome::Loaded(ds)
}

impl KpmRefDataSet {
    /// Loads a data set from its little-endian bytes. The input must not
    /// announce a negative image count (see [`parse_ref_data_set`], which
    /// reports it).
    pub fn load_from_bytes(bytes: &[u8]) -> (r: Result<KpmRefDataSet, LoadError>)
        requires
            !(spec_load(bytes@) is Aborts),
        ensures
            match spec_load(bytes@) {
                LoadOutcome::Loaded(m) => r matches Ok(ds) && ds@ == m,
                LoadOutcome::Failed(e) => r == Err::<KpmRefDataSet, LoadError>(e),
                LoadOutcome::Aborts => false,
            },
    {
        match parse_ref_data_set(bytes) {
            ParseOutcome::Loaded(ds) => Ok(ds),
            ParseOutcome::Failed(e) => Err(e),
            ParseOutcome::NegativeImageCount => Err(LoadError::UnexpectedEof),
        }
    }
}

/// A grayscale reference image waiting for feature extraction: one byte per
/// pixel, row-major.
#[derive(Clone, Debug, PartialEq, Eq)]
pub struct RefImage {
    pub width: i32,
    pub height: i32,
    pub pixels: Vec<u8>,
}

/// A growable collection of reference images, kept in the order they were
/// added.
pub struct RefDataSet {
    images: Vec<RefImage>,
}

impl View for RefDataSet {
    type V = Seq<RefImage>;

    closed spec fn view(&self) -> Seq<RefImage> {
        self.images@
    }
}

impl RefDataSet {
    /// An empty set.
    pub fn new() -> (r: Self)
        ensures
            r@ == Seq::<RefImage>::empty(),
    {
        RefDataSet { images: Vec::new() }
    }

    /// Appends an image.
    pub fn add(&mut self, image: RefImage)
        ensures
            final(self)@ == old(self)@.push(image),
    {
        self.images.push(image);
    }

    /// Number of images.
    pub fn len(&self) -> (r: usize)
        ensures
            r == self@.len(),
    {
        self.images.len()
    }

    /// Whether the set holds no image.
    pub fn is_empty(&self) -> (r: bool)
        ensures
            r == (self@.len() == 0),
    {
        self.images.len() == 0
    }

    /// The images, in the order they were added.
    pub fn iter(&self) -> (r: &[RefImage])
        ensures
            r@ == self@,
    {
        self.images.as_slice()
    }
}

impl Default for RefDataSet {
    fn default() -> (r: Self)
        ensures
            r@ == Seq::<RefImage>::empty(),
    {
        Self::new()
    }
}

proof fn lemma_adds_prefix(states: Seq<Seq<RefImage>>, items: Seq<RefImage>, t: nat)
    requires
        states.len() == items.len() + 1,
        states[0] == Seq::<RefImage>::empty(),
        forall|i: int| 0 <= i < items.len() ==> states[i + 1] == states[i].push(#[trigger] items[i]),
        t <= items.len(),
    ensures
        states[t as int] == items.take(t as int),
    decreases t,
{
    if t == 0 {
        assert(items.take(0) =~= Seq::<RefImage>::empty());
    } else {
        lemma_adds_prefix(states, items, (t - 1) as nat);
        assert(states[t as int] == states[t - 1].push(items[t - 1]));
        assert(items.take(t as int) =~= items.take(t - 1).push(items[t - 1]));
    }
}

/// Adding images one by one to a new set collects exactly them, in the
/// order they were added: if `states[0]` is the view of a new set and each
/// `states[i + 1]` the view after adding `items[i]` to `states[i]`, the last
/// view is `items`, of length `items.len()`.
pub proof fn lemma_adds_in_order(states: Seq<Seq<RefImage>>, items: Seq<RefImage>)
    requires
        states.len() == items.len() + 1,
        states[0] == Seq::<RefImage>::empty(),
        forall|i: int| 0 <= i < items.len() ==> states[i + 1] == states[i].push(#[trigger] items[i]),
    ensures
        states.last() == items,
        states.last().len() == items.len(),
{
    lemma_adds_prefix(states, items, items.len());
    assert(items.take(items.len() as int) =~= items);
}

/// The reference feature made of point `i`, its 2D `y` and 3D coordinates
/// and the `i`-th 96-byte descriptor of `descriptors`.
pub open spec fn assembled_point(
    points: Seq<FeaturePoint>,
    y_bits: Seq<u32>,
    coords3d: Seq<KpmCoord2D>,
    descriptors: Seq<u8>,
    page_no: i32,
    image_no: i32,
    i: int,
) -> RefPointModel {
    RefPointModel {
        c2x: points[i].x_bits,
        c2y: y_bits[i],
        c3x: coords3d[i].x_bits,
        c3y: coords3d[i].y_bits,
        v: descriptors.subrange(96 * i, 96 * i + 96),
        angle: points[i].angle_bits,
        scale: points[i].scale_bits,
        maxima: if points[i].maxima { 1 } else { 0 },
        page_no,
        ref_image_no: image_no,
    }
}

fn descriptor_at(descriptors: &[u8], i: usize) -> (r: [u8; 96])
    requires
        96 * i + 96 <= descriptors@.len(),
    ensures
        r@ == descriptors@.subrange(96 * i, 96 * i + 96),
{
    let len = descriptors.len();
    let start = 96 * i;
    let mut a = [0u8; 96];
    let mut k: usize = 0;
    while k < 96
        invariant
            k <= 96,
            start == 96 * i,
            start + 96 <= descriptors@.len(),
            len == descriptors@.len(),
            forall|t: int| 0 <= t < k ==> #[trigger] a@[t] == descriptors@[start + t],
        decreases 96 - k,
    {
        a[k] = descriptors[start + k];
        k = k + 1;
    }
    assert(a@ =~= descriptors@.subrange(96 * i, 96 * i + 96));
    a
}

/// The data set of the features of one reference image, on page `page_no`:
/// point `i` with 2D coordinates `(x, y_bits[i])`, 3D coordinates
/// `coords3d[i]` and the `i`-th 96-byte descriptor (descriptors laid back to
/// back), and one page holding the `width x height` image `image_no`.
pub fn assemble_ref_data_set(
    points: &[FeaturePoint],
    y_bits: &[u32],
    coords3d: &[KpmCoord2D],
    descriptors: &[u8],
    page_no: i32,
    image_no: i32,
    width: i32,
    height: i32,
) -> (r: KpmRefDataSet)
    requires
        y_bits@.len() == points@.len(),
        coords3d@.len() == points@.len(),
        96 * points@.len() <= descriptors@.len(),
    ensures
        r@ == (DataSetModel {
            num: points@.len() as i32,
            ref_point: Seq::new(
                points@.len(),
                |i: int| assembled_point(points@, y_bits@, coords3d@, descriptors@, page_no, image_no, i),
            ),
            page_num: 1,
            page_info: seq![PageModel { page_no, image_num: 1, image_info: seq![KpmImageInfo { image_no, width, height }] }],
        }),
{
    let n = points.len();
    let mut ref_point: Vec<KpmRefData> = Vec::new();
    let mut i: usize = 0;
    while i < n
        invariant
            i <= n,
            n == points@.len(),
            y_bits@.len() == n,
            coords3d@.len() == n,
            96 * n <= descriptors@.len(),
            ref_point@.len() == i,
            forall|t: int| 0 <= t < i ==> (#[trigger] ref_point@[t])@ == assembled_point(
                points@,
                y_bits@,
                coords3d@,
                descriptors@,
                page_no,
                image_no,
                t,
            ),
        decreases n - i,
    {
        let pt = points[i];
        let v = descriptor_at(descriptors, i);
        ref_point.push(KpmRefData {
            coord2d: KpmCoord2D { x_bits: pt.x_bits, y_bits: y_bits[i] },
            coord3d: coords3d[i],
            feature_vec: FreakFeature {
                v,
                angle_bits: pt.angle_bits,
                scale_bits: pt.scale_bits,
                maxima: if pt.maxima { 1 } else { 0 },
            },
            page_no,
            ref_image_no: image_no,
        });
        i = i + 1;
    }
    let mut image_info: Vec<KpmImageInfo> = Vec::new();
    image_info.push(KpmImageInfo { image_no, width, height });
    let mut page_info: Vec<KpmPageInfo> = Vec::new();
    page_info.push(KpmPageInfo { page_no, image_num: 1, image_info });
    let r = KpmRefDataSet { num: n as i32, ref_point, page_num: 1, page_info };
    proof {
        assert(r@.ref_point =~= Seq::new(
            n as nat,
            |i: int| assembled_point(points@, y_bits@, coords3d@, descriptors@, page_no, image_no, i),
        ));
        assert(r@.page_info =~= seq![PageModel { page_no, image_num: 1, image_info: seq![KpmImageInfo { image_no, width, height }] }]);
    }
    r
}

} // verus!
