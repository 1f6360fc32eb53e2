//! File categories and how they are shown.
use vstd::prelude::*;

verus! {

/// Number of categories.
pub const CATEGORIES: usize = 9;

/// What a file is, by its name.
#[derive(Clone, Copy, Debug, PartialEq, Eq, Structural)]
pub enum FileCategory {
    Video,
    Audio,
    Image,
    Document,
    Developer,
    Apps,
    Archive,
    System,
    Other,
}

impl FileCategory {
    /// The category's index.
    pub open spec fn index(self) -> int {
        match self {
            FileCategory::Video => 0,
            FileCategory::Audio => 1,
            FileCategory::Image => 2,
            FileCategory::Document => 3,
            FileCategory::Developer => 4,
            FileCategory::Apps => 5,
            FileCategory::Archive => 6,
            FileCategory::System => 7,
            FileCategory::Other => 8,
        }
    }

    /// The index as stored in the per-folder totals.
    pub fn as_bits(self) -> (r: u8)
        ensures
            r as int == self.index(),
            r < CATEGORIES,
    {
        match self {
            FileCategory::Video => 0,
            FileCategory::Audio => 1,
            FileCategory::Image => 2,
            FileCategory::Document => 3,
            FileCategory::Developer => 4,
            FileCategory::Apps => 5,
            FileCategory::Archive => 6,
            FileCategory::System => 7,
            FileCategory::Other => 8,
        }
    }

    /// The category with the given index; an index out of range is `Other`.
    pub fn from_bits(bits: u8) -> (r: Self)
        ensures
            bits < CATEGORIES ==> r.index() == bits,
            bits >= CATEGORIES ==> r == FileCategory::Other,
    {
        if bits == 0 {
            FileCategory::Video
        } else if bits == 1 {
            FileCategory::Audio
        } else if bits == 2 {
            FileCategory::Image
        } else if bits == 3 {
            FileCategory::Document
        } else if bits == 4 {
            FileCategory::Developer
        } else if bits == 5 {
            FileCategory::Apps
        } else if bits == 6 {
            FileCategory::Archive
        } else if bits == 7 {
            FileCategory::System
        } else {
            FileCategory::Other
        }
    }

    /// Audio, video and images.
    pub open spec fn is_media(self) -> bool {
        self == FileCategory::Video || self == FileCategory::Audio || self == FileCategory::Image
    }

    /// Whether the category is audio, video or images.
    pub fn media(self) -> (r: bool)
        ensures
            r == self.is_media(),
    {
        matches!(self, FileCategory::Video | FileCategory::Audio | FileCategory::Image)
    }
}

/// How one category is shown.
#[derive(Clone, Debug)]
pub struct CategoryStyle {
    /// Label ("Video", "Documents", …).
    pub label: String,
    /// `0xRRGGBB`.
    pub color: u32,
}

/// The label and colour of every category, by index.
#[derive(Clone, Debug)]
pub struct Palette {
    pub styles: Vec<CategoryStyle>,
}

impl Palette {
    /// One style for each category.
    pub open spec fn wf(&self) -> bool {
        self.styles@.len() == CATEGORIES
    }

    /// The label of a category.
    pub open spec fn label_of(&self, c: FileCategory) -> Seq<char> {
        self.styles@[c.index()].label@
    }

    /// The colour of a category.
    pub open spec fn color_of(&self, c: FileCategory) -> u32 {
        self.styles@[c.index()].color
    }

    /// The label of a category.
    pub fn label(&self, c: FileCategory) -> (r: String)
        requires
            self.wf(),
        ensures
            r@ == self.label_of(c),
    {
        self.styles[c.as_bits() as usize].label.clone()
    }

    /// The colour of a category.
    pub fn color(&self, c: FileCategory) -> (r: u32)
        requires
            self.wf(),
        ensures
            r == self.color_of(c),
    {
        self.styles[c.as_bits() as usize].color
    }
}

/// Categories are numbered in their order, and a number reads back as its
/// category; any number beyond stands for `Other`.
pub proof fn categories_read_back(c: FileCategory, bits: u8, back: FileCategory, n: u8, d: FileCategory)
    requires
        call_ensures(FileCategory::as_bits, (c,), bits),
        call_ensures(FileCategory::from_bits, (bits,), back),
        call_ensures(FileCategory::from_bits, (n,), d),
    ensures
        back == c,
        c == FileCategory::Video <==> bits == 0,
        c == FileCategory::Audio <==> bits == 1,
        c == FileCategory::Image <==> bits == 2,
        c == FileCategory::Document <==> bits == 3,
        c == FileCategory::Developer <==> bits == 4,
        c == FileCategory::Apps <==> bits == 5,
        c == FileCategory::Archive <==> bits == 6,
        c == FileCategory::System <==> bits == 7,
        c == FileCategory::Other <==> bits == 8,
        n >= 9 ==> d == FileCategory::Other,
{
}

/// Video, audio and images are media, and nothing else is.
pub proof fn three_categories_are_media(c: FileCategory, r: bool, bits: u8)
    requires
        call_ensures(FileCategory::media, (c,), r),
        call_ensures(FileCategory::as_bits, (c,), bits),
    ensures
        r <==> bits <= 2,
{
}

/// A category is shown by the style at its number.
pub proof fn a_category_has_the_style_of_its_number(
    p: &Palette,
    c: FileCategory,
    bits: u8,
    label: String,
    color: u32,
)
    requires
        p.wf(),
        call_ensures(FileCategory::as_bits, (c,), bits),
        call_ensures(Palette::label, (p, c), label),
        call_ensures(Palette::color, (p, c), color),
    ensures
        label@ == p.styles@[bits as int].label@,
        color == p.styles@[bits as int].color,
{
}

} // verus!
