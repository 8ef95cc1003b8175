//! What the transforms read of an object file: its sections and segments as
//! plain values, the image base, and the test for the one kind of file that
//! is transformed.

use object::{Architecture, Object, ObjectSection, ObjectSegment, SectionKind};
use vstd::prelude::*;

verus! {

/// One section of an object file.
#[derive(Clone, Debug)]
pub struct SectionInfo {
    /// The bytes of the section's name; empty where the file gives none.
    pub name: Vec<u8>,
    /// Whether the section holds executable code.
    pub is_text: bool,
    /// The virtual address of the section's first byte.
    pub address: u64,
    /// The section's size in memory.
    pub size: u64,
    /// Offset and length of the section's bytes in the file, where the file
    /// holds them.
    pub file_range: Option<(u64, u64)>,
    /// The length of the section's data, where the data can be read.
    pub data_len: Option<u64>,
}

/// The mathematical value of a `SectionInfo`.
pub struct SectionModel {
    pub name: Seq<u8>,
    pub is_text: bool,
    pub address: u64,
    pub size: u64,
    pub file_range: Option<(u64, u64)>,
    pub data_len: Option<u64>,
}

impl View for SectionInfo {
    type V = SectionModel;

    open spec fn view(&self) -> SectionModel {
        SectionModel {
            name: self.name@,
            is_text: self.is_text,
            address: self.address,
            size: self.size,
            file_range: self.file_range,
            data_len: self.data_len,
        }
    }
}

/// What was read of an object file.
#[derive(Clone, Debug)]
pub struct ObjectInfo {
    /// Whether the file is for x86-64.
    pub is_x86_64: bool,
    /// Whether the file is little-endian.
    pub is_little_endian: bool,
    /// Whether the file has 64-bit words.
    pub is_64: bool,
    /// The virtual addresses of the loadable segments, in file order.
    pub segments: Vec<u64>,
    /// The sections, in file order.
    pub sections: Vec<SectionInfo>,
}

/// The mathematical value of an `ObjectInfo`.
pub struct ObjectModel {
    pub is_x86_64: bool,
    pub is_little_endian: bool,
    pub is_64: bool,
    pub segments: Seq<u64>,
    pub sections: Seq<SectionModel>,
}

impl View for ObjectInfo {
    type V = ObjectModel;

    open spec fn view(&self) -> ObjectModel {
        ObjectModel {
            is_x86_64: self.is_x86_64,
            is_little_endian: self.is_little_endian,
            is_64: self.is_64,
            segments: self.segments@,
            sections: Seq::new(self.sections@.len(), |i: int| self.sections@[i]@),
        }
    }
}

/// What the object parser reads of the file `data`, `None` where it does not
/// accept the file.
pub uninterp spec fn parsed_object(data: Seq<u8>) -> Option<ObjectModel>;

/// Whether the transforms apply to the object: x86-64, little-endian, 64-bit.
pub open spec fn supported(o: ObjectModel) -> bool {
    o.is_x86_64 && o.is_little_endian && o.is_64
}

/// The object in `data` that the transforms work on: what the parser reads,
/// where it accepts the file and the file is of the supported kind.
pub open spec fn loaded_object(data: Seq<u8>) -> Option<ObjectModel> {
    match parsed_object(data) {
        Some(o) => if supported(o) {
            Some(o)
        } else {
            None
        },
        None => None,
    }
}

/// The least of the addresses `segments[0..n]`, 0 where there is none.
pub open spec fn least_address(segments: Seq<u64>, n: int) -> u64
    decreases n,
{
    if n <= 0 {
        0
    } else if n == 1 {
        segments[0]
    } else {
        let rest = least_address(segments, n - 1);
        if segments[n - 1] < rest {
            segments[n - 1]
        } else {
            rest
        }
    }
}

/// The image base: the least segment address, 0 for an object without
/// segments.
pub open spec fn image_base_of(o: ObjectModel) -> u64 {
    least_address(o.segments, o.segments.len() as int)
}

/// Whether the file range `range` lies within an image of `len` bytes.
pub open spec fn range_in_image(range: Option<(u64, u64)>, len: int) -> bool {
    match range {
        Some((off, size)) => off + size <= len,
        None => false,
    }
}

/// `object::File::parse` and the accessors of its sections and segments:
/// what the crate reads of the file is a function of the file's bytes.
/// The section name is empty where the crate cannot give it as text, the
/// data length is absent where the crate cannot read the section's data.
#[verifier::external_body]
fn parse_object(data: &[u8]) -> (r: Option<ObjectInfo>)
    ensures
        r.is_some() == parsed_object(data@).is_some(),
        r.is_some() ==> r.unwrap()@ == parsed_object(data@).unwrap(),
{
    let obj = object::File::parse(data).ok()?;
    Some(ObjectInfo {
        is_x86_64: obj.architecture() == Architecture::X86_64,
        is_little_endian: obj.is_little_endian(),
        is_64: obj.is_64(),
        segments: obj.segments().map(|s| s.address()).collect(),
        sections: obj.sections().map(|s| SectionInfo {
            name: s.name().unwrap_or("").as_bytes().to_vec(),
            is_text: s.kind() == SectionKind::Text,
            address: s.address(),
            size: s.size(),
            file_range: s.file_range(),
            data_len: s.data().ok().map(|d| d.len() as u64),
        }).collect(),
    })
}

/// Reads the object in `data` and keeps it where the transforms apply to it.
pub fn load_object(data: &[u8]) -> (r: Option<ObjectInfo>)
    ensures
        r.is_some() == loaded_object(data@).is_some(),
        r.is_some() ==> r.unwrap()@ == loaded_object(data@).unwrap(),
{
    match parse_object(data) {
        Some(obj) => {
            if obj.is_x86_64 && obj.is_little_endian && obj.is_64 {
                Some(obj)
            } else {
                None
            }
        },
        None => None,
    }
}

/// The image base of an object.
pub fn image_base(obj: &ObjectInfo) -> (r: u64)
    ensures
        r == image_base_of(obj@),
        obj@.segments.len() == 0 ==> r == 0,
        forall|i: int| 0 <= i < obj@.segments.len() ==> r <= obj@.segments[i],
        obj@.segments.len() > 0 ==> exists|i: int|
            0 <= i < obj@.segments.len() && r == obj@.segments[i],
{
    if obj.segments.len() == 0 {
        return 0;
    }
    let mut base: u64 = obj.segments[0];
    let mut i: usize = 1;
    while i < obj.segments.len()
        invariant
            1 <= i <= obj.segments.len(),
            base == least_address(obj.segments@, i as int),
            forall|j: int| 0 <= j < i ==> base <= obj.segments@[j],
            exists|j: int| 0 <= j < i && base == obj.segments@[j],
        decreases obj.segments.len() - i,
    {
        if obj.segments[i] < base {
            base = obj.segments[i];
        }
        i = i + 1;
    }
    base
}

/// The file range of a section as offsets into an image of `len` bytes,
/// where the range lies within the image.
pub fn section_range(sec: &SectionInfo, len: usize) -> (r: Option<(usize, usize)>)
    ensures
        r.is_some() == range_in_image(sec@.file_range, len as int),
        r.is_some() ==> sec@.file_range == Some((r.unwrap().0 as u64, r.unwrap().1 as u64)),
        r.is_some() ==> r.unwrap().0 + r.unwrap().1 <= len,
{
    match sec.file_range {
        Some((off, size)) => {
            if off <= len as u64 && size <= len as u64 - off {
                Some((off as usize, size as usize))
            } else {
                None
            }
        },
        None => None,
    }
}

} // verus!
