//! The names that the library itself looks up or writes.

use vstd::prelude::*;
use vstd::string::StringExecFns;

verus! {

/// The name `/Type`.
pub open spec fn type_key() -> Seq<char> {
    seq!['/', 'T', 'y', 'p', 'e']
}

pub fn type_key_string() -> (r: String)
    ensures
        r@ == type_key(),
{
    proof {
        reveal_strlit("/Type");
    }
    let r: String = String::from_str("/Type");
    assert(r@ =~= type_key());
    r
}

/// The name `/Subtype`.
pub open spec fn subtype_key() -> Seq<char> {
    seq!['/', 'S', 'u', 'b', 't', 'y', 'p', 'e']
}

pub fn subtype_key_string() -> (r: String)
    ensures
        r@ == subtype_key(),
{
    proof {
        reveal_strlit("/Subtype");
    }
    let r: String = String::from_str("/Subtype");
    assert(r@ =~= subtype_key());
    r
}

/// The name `/Length`.
pub open spec fn length_key() -> Seq<char> {
    seq!['/', 'L', 'e', 'n', 'g', 't', 'h']
}

pub fn length_key_string() -> (r: String)
    ensures
        r@ == length_key(),
{
    proof {
        reveal_strlit("/Length");
    }
    let r: String = String::from_str("/Length");
    assert(r@ =~= length_key());
    r
}

/// The name `/Root`.
pub open spec fn root_key() -> Seq<char> {
    seq!['/', 'R', 'o', 'o', 't']
}

pub fn root_key_string() -> (r: String)
    ensures
        r@ == root_key(),
{
    proof {
        reveal_strlit("/Root");
    }
    let r: String = String::from_str("/Root");
    assert(r@ =~= root_key());
    r
}

/// The name `/Prev`.
pub open spec fn prev_key() -> Seq<char> {
    seq!['/', 'P', 'r', 'e', 'v']
}

pub fn prev_key_string() -> (r: String)
    ensures
        r@ == prev_key(),
{
    proof {
        reveal_strlit("/Prev");
    }
    let r: String = String::from_str("/Prev");
    assert(r@ =~= prev_key());
    r
}

/// The name `/Encrypt`.
pub open spec fn encrypt_key() -> Seq<char> {
    seq!['/', 'E', 'n', 'c', 'r', 'y', 'p', 't']
}

pub fn encrypt_key_string() -> (r: String)
    ensures
        r@ == encrypt_key(),
{
    proof {
        reveal_strlit("/Encrypt");
    }
    let r: String = String::from_str("/Encrypt");
    assert(r@ =~= encrypt_key());
    r
}

/// The name `/Info`.
pub open spec fn info_key() -> Seq<char> {
    seq!['/', 'I', 'n', 'f', 'o']
}

pub fn info_key_string() -> (r: String)
    ensures
        r@ == info_key(),
{
    proof {
        reveal_strlit("/Info");
    }
    let r: String = String::from_str("/Info");
    assert(r@ =~= info_key());
    r
}

/// The name `/Size`.
pub open spec fn size_key() -> Seq<char> {
    seq!['/', 'S', 'i', 'z', 'e']
}

pub fn size_key_string() -> (r: String)
    ensures
        r@ == size_key(),
{
    proof {
        reveal_strlit("/Size");
    }
    let r: String = String::from_str("/Size");
    assert(r@ =~= size_key());
    r
}

/// The name `/Pages`.
pub open spec fn pages_key() -> Seq<char> {
    seq!['/', 'P', 'a', 'g', 'e', 's']
}

pub fn pages_key_string() -> (r: String)
    ensures
        r@ == pages_key(),
{
    proof {
        reveal_strlit("/Pages");
    }
    let r: String = String::from_str("/Pages");
    assert(r@ =~= pages_key());
    r
}

/// The name `/Kids`.
pub open spec fn kids_key() -> Seq<char> {
    seq!['/', 'K', 'i', 'd', 's']
}

pub fn kids_key_string() -> (r: String)
    ensures
        r@ == kids_key(),
{
    proof {
        reveal_strlit("/Kids");
    }
    let r: String = String::from_str("/Kids");
    assert(r@ =~= kids_key());
    r
}

/// The name `/Count`.
pub open spec fn count_key() -> Seq<char> {
    seq!['/', 'C', 'o', 'u', 'n', 't']
}

pub fn count_key_string() -> (r: String)
    ensures
        r@ == count_key(),
{
    proof {
        reveal_strlit("/Count");
    }
    let r: String = String::from_str("/Count");
    assert(r@ =~= count_key());
    r
}

/// The name `/Parent`.
pub open spec fn parent_key() -> Seq<char> {
    seq!['/', 'P', 'a', 'r', 'e', 'n', 't']
}

pub fn parent_key_string() -> (r: String)
    ensures
        r@ == parent_key(),
{
    proof {
        reveal_strlit("/Parent");
    }
    let r: String = String::from_str("/Parent");
    assert(r@ =~= parent_key());
    r
}

/// The name `/Catalog`.
pub open spec fn catalog_key() -> Seq<char> {
    seq!['/', 'C', 'a', 't', 'a', 'l', 'o', 'g']
}

pub fn catalog_key_string() -> (r: String)
    ensures
        r@ == catalog_key(),
{
    proof {
        reveal_strlit("/Catalog");
    }
    let r: String = String::from_str("/Catalog");
    assert(r@ =~= catalog_key());
    r
}

/// The name `/ID`.
pub open spec fn id_key() -> Seq<char> {
    seq!['/', 'I', 'D']
}

pub fn id_key_string() -> (r: String)
    ensures
        r@ == id_key(),
{
    proof {
        reveal_strlit("/ID");
    }
    let r: String = String::from_str("/ID");
    assert(r@ =~= id_key());
    r
}

/// The name `/Linearized`.
pub open spec fn linearized_key() -> Seq<char> {
    seq!['/', 'L', 'i', 'n', 'e', 'a', 'r', 'i', 'z', 'e', 'd']
}

pub fn linearized_key_string() -> (r: String)
    ensures
        r@ == linearized_key(),
{
    proof {
        reveal_strlit("/Linearized");
    }
    let r: String = String::from_str("/Linearized");
    assert(r@ =~= linearized_key());
    r
}

/// The name `/P`.
pub open spec fn permissions_key() -> Seq<char> {
    seq!['/', 'P']
}

pub fn permissions_key_string() -> (r: String)
    ensures
        r@ == permissions_key(),
{
    proof {
        reveal_strlit("/P");
    }
    let r: String = String::from_str("/P");
    assert(r@ =~= permissions_key());
    r
}

/// The name `/XRefStm`.
pub open spec fn xref_stream_key() -> Seq<char> {
    seq!['/', 'X', 'R', 'e', 'f', 'S', 't', 'm']
}

pub fn xref_stream_key_string() -> (r: String)
    ensures
        r@ == xref_stream_key(),
{
    proof {
        reveal_strlit("/XRefStm");
    }
    let r: String = String::from_str("/XRefStm");
    assert(r@ =~= xref_stream_key());
    r
}

/// The name `/Extensions`.
pub open spec fn extensions_key() -> Seq<char> {
    seq!['/', 'E', 'x', 't', 'e', 'n', 's', 'i', 'o', 'n', 's']
}

pub fn extensions_key_string() -> (r: String)
    ensures
        r@ == extensions_key(),
{
    proof {
        reveal_strlit("/Extensions");
    }
    let r: String = String::from_str("/Extensions");
    assert(r@ =~= extensions_key());
    r
}

/// The name `/ADBE`.
pub open spec fn adbe_key() -> Seq<char> {
    seq!['/', 'A', 'D', 'B', 'E']
}

pub fn adbe_key_string() -> (r: String)
    ensures
        r@ == adbe_key(),
{
    proof {
        reveal_strlit("/ADBE");
    }
    let r: String = String::from_str("/ADBE");
    assert(r@ =~= adbe_key());
    r
}

/// The name `/ExtensionLevel`.
pub open spec fn extension_level_key() -> Seq<char> {
    seq!['/', 'E', 'x', 't', 'e', 'n', 's', 'i', 'o', 'n', 'L', 'e', 'v', 'e', 'l']
}

pub fn extension_level_key_string() -> (r: String)
    ensures
        r@ == extension_level_key(),
{
    proof {
        reveal_strlit("/ExtensionLevel");
    }
    let r: String = String::from_str("/ExtensionLevel");
    assert(r@ =~= extension_level_key());
    r
}

/// The name `/Filter`.
pub open spec fn filter_key() -> Seq<char> {
    seq!['/', 'F', 'i', 'l', 't', 'e', 'r']
}

pub fn filter_key_string() -> (r: String)
    ensures
        r@ == filter_key(),
{
    proof {
        reveal_strlit("/Filter");
    }
    let r: String = String::from_str("/Filter");
    assert(r@ =~= filter_key());
    r
}

/// The name `/DecodeParms`.
pub open spec fn decode_parms_key() -> Seq<char> {
    seq!['/', 'D', 'e', 'c', 'o', 'd', 'e', 'P', 'a', 'r', 'm', 's']
}

pub fn decode_parms_key_string() -> (r: String)
    ensures
        r@ == decode_parms_key(),
{
    proof {
        reveal_strlit("/DecodeParms");
    }
    let r: String = String::from_str("/DecodeParms");
    assert(r@ =~= decode_parms_key());
    r
}

/// The name `/ASCIIHexDecode`.
pub open spec fn hex_filter_key() -> Seq<char> {
    seq!['/', 'A', 'S', 'C', 'I', 'I', 'H', 'e', 'x', 'D', 'e', 'c', 'o', 'd', 'e']
}

pub fn hex_filter_key_string() -> (r: String)
    ensures
        r@ == hex_filter_key(),
{
    proof {
        reveal_strlit("/ASCIIHexDecode");
    }
    let r: String = String::from_str("/ASCIIHexDecode");
    assert(r@ =~= hex_filter_key());
    r
}

/// The name `/RunLengthDecode`.
pub open spec fn run_length_filter_key() -> Seq<char> {
    seq!['/', 'R', 'u', 'n', 'L', 'e', 'n', 'g', 't', 'h', 'D', 'e', 'c', 'o', 'd', 'e']
}

pub fn run_length_filter_key_string() -> (r: String)
    ensures
        r@ == run_length_filter_key(),
{
    proof {
        reveal_strlit("/RunLengthDecode");
    }
    let r: String = String::from_str("/RunLengthDecode");
    assert(r@ =~= run_length_filter_key());
    r
}

/// The name `/BaseVersion`.
pub open spec fn base_version_key() -> Seq<char> {
    seq!['/', 'B', 'a', 's', 'e', 'V', 'e', 'r', 's', 'i', 'o', 'n']
}

pub fn base_version_key_string() -> (r: String)
    ensures
        r@ == base_version_key(),
{
    proof {
        reveal_strlit("/BaseVersion");
    }
    let r: String = String::from_str("/BaseVersion");
    assert(r@ =~= base_version_key());
    r
}

/// The name `/W`.
pub open spec fn widths_key() -> Seq<char> {
    seq!['/', 'W']
}

pub fn widths_key_string() -> (r: String)
    ensures
        r@ == widths_key(),
{
    proof {
        reveal_strlit("/W");
    }
    let r: String = String::from_str("/W");
    assert(r@ =~= widths_key());
    r
}

/// The name `/Index`.
pub open spec fn index_key() -> Seq<char> {
    seq!['/', 'I', 'n', 'd', 'e', 'x']
}

pub fn index_key_string() -> (r: String)
    ensures
        r@ == index_key(),
{
    proof {
        reveal_strlit("/Index");
    }
    let r: String = String::from_str("/Index");
    assert(r@ =~= index_key());
    r
}

/// The name `/N`.
pub open spec fn number_key() -> Seq<char> {
    seq!['/', 'N']
}

pub fn number_key_string() -> (r: String)
    ensures
        r@ == number_key(),
{
    proof {
        reveal_strlit("/N");
    }
    let r: String = String::from_str("/N");
    assert(r@ =~= number_key());
    r
}

/// The name `/First`.
pub open spec fn first_key() -> Seq<char> {
    seq!['/', 'F', 'i', 'r', 's', 't']
}

pub fn first_key_string() -> (r: String)
    ensures
        r@ == first_key(),
{
    proof {
        reveal_strlit("/First");
    }
    let r: String = String::from_str("/First");
    assert(r@ =~= first_key());
    r
}

/// The name `/XRef`.
pub open spec fn xref_name_key() -> Seq<char> {
    seq!['/', 'X', 'R', 'e', 'f']
}

pub fn xref_name_key_string() -> (r: String)
    ensures
        r@ == xref_name_key(),
{
    proof {
        reveal_strlit("/XRef");
    }
    let r: String = String::from_str("/XRef");
    assert(r@ =~= xref_name_key());
    r
}

/// The name `/ObjStm`.
pub open spec fn object_stream_name_key() -> Seq<char> {
    seq!['/', 'O', 'b', 'j', 'S', 't', 'm']
}

pub fn object_stream_name_key_string() -> (r: String)
    ensures
        r@ == object_stream_name_key(),
{
    proof {
        reveal_strlit("/ObjStm");
    }
    let r: String = String::from_str("/ObjStm");
    assert(r@ =~= object_stream_name_key());
    r
}

/// The name `/Resources`.
pub open spec fn resources_key() -> Seq<char> {
    seq!['/', 'R', 'e', 's', 'o', 'u', 'r', 'c', 'e', 's']
}

pub fn resources_key_string() -> (r: String)
    ensures
        r@ == resources_key(),
{
    proof {
        reveal_strlit("/Resources");
    }
    let r: String = String::from_str("/Resources");
    assert(r@ =~= resources_key());
    r
}

/// The name `/MediaBox`.
pub open spec fn media_box_key() -> Seq<char> {
    seq!['/', 'M', 'e', 'd', 'i', 'a', 'B', 'o', 'x']
}

pub fn media_box_key_string() -> (r: String)
    ensures
        r@ == media_box_key(),
{
    proof {
        reveal_strlit("/MediaBox");
    }
    let r: String = String::from_str("/MediaBox");
    assert(r@ =~= media_box_key());
    r
}

/// The name `/CropBox`.
pub open spec fn crop_box_key() -> Seq<char> {
    seq!['/', 'C', 'r', 'o', 'p', 'B', 'o', 'x']
}

pub fn crop_box_key_string() -> (r: String)
    ensures
        r@ == crop_box_key(),
{
    proof {
        reveal_strlit("/CropBox");
    }
    let r: String = String::from_str("/CropBox");
    assert(r@ =~= crop_box_key());
    r
}

/// The name `/Rotate`.
pub open spec fn rotate_key() -> Seq<char> {
    seq!['/', 'R', 'o', 't', 'a', 't', 'e']
}

pub fn rotate_key_string() -> (r: String)
    ensures
        r@ == rotate_key(),
{
    proof {
        reveal_strlit("/Rotate");
    }
    let r: String = String::from_str("/Rotate");
    assert(r@ =~= rotate_key());
    r
}

} // verus!
