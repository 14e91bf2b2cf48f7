//! Chromosome names and their accessions, by species.

use crate::merge::{bytes_side, Side};
use crate::text::find_byte;
use vstd::prelude::*;
use vstd::slice::*;
use vstd::string::*;
use vstd::utf8::*;

verus! {

/// Whether two strings are equal.
pub fn str_eq(a: &str, b: &str) -> (r: bool)
    ensures
        r == (a@ == b@),
{
    proof {
        encode_utf8_decode_utf8(a@);
        encode_utf8_decode_utf8(b@);
    }
    bytes_side(a.as_bytes(), b.as_bytes()) == Side::Same
}

/// The accession where the table has one, else the name itself.
pub open spec fn resolved(found: Option<Seq<char>>, chr: Seq<char>) -> Seq<char> {
    match found {
        Some(a) => a,
        None => chr,
    }
}

/// Accessions of the human chromosomes.
pub open spec fn human_accession(chr: Seq<char>) -> Option<Seq<char>> {
    if chr == "chr1"@ {
        Some("NC_000001"@)
    } else if chr == "chr2"@ {
        Some("NC_000002"@)
    } else if chr == "chr3"@ {
        Some("NC_000003"@)
    } else if chr == "chr4"@ {
        Some("NC_000004"@)
    } else if chr == "chr5"@ {
        Some("NC_000005"@)
    } else if chr == "chr6"@ {
        Some("NC_000006"@)
    } else if chr == "chr7"@ {
        Some("NC_000007"@)
    } else if chr == "chr8"@ {
        Some("NC_000008"@)
    } else if chr == "chr9"@ {
        Some("NC_000009"@)
    } else if chr == "chr10"@ {
        Some("NC_000010"@)
    } else if chr == "chr11"@ {
        Some("NC_000011"@)
    } else if chr == "chr12"@ {
        Some("NC_000012"@)
    } else if chr == "chr13"@ {
        Some("NC_000013"@)
    } else if chr == "chr14"@ {
        Some("NC_000014"@)
    } else if chr == "chr15"@ {
        Some("NC_000015"@)
    } else if chr == "chr16"@ {
        Some("NC_000016"@)
    } else if chr == "chr17"@ {
        Some("NC_000017"@)
    } else if chr == "chr18"@ {
        Some("NC_000018"@)
    } else if chr == "chr19"@ {
        Some("NC_000019"@)
    } else if chr == "chr20"@ {
        Some("NC_000020"@)
    } else if chr == "chr21"@ {
        Some("NC_000021"@)
    } else if chr == "chr22"@ {
        Some("NC_000022"@)
    } else if chr == "chrX"@ {
        Some("NC_000023"@)
    } else if chr == "chrY"@ {
        Some("NC_000024"@)
    } else if chr == "chrM"@ {
        Some("NC_012920"@)
    } else {
        None
    }
}

/// Accessions of the mouse chromosomes.
pub open spec fn mouse_accession(chr: Seq<char>) -> Option<Seq<char>> {
    if chr == "chr1"@ {
        Some("NC_000067"@)
    } else if chr == "chr2"@ {
        Some("NC_000068"@)
    } else if chr == "chr3"@ {
        Some("NC_000069"@)
    } else if chr == "chr4"@ {
        Some("NC_000070"@)
    } else if chr == "chr5"@ {
        Some("NC_000071"@)
    } else if chr == "chr6"@ {
        Some("NC_000072"@)
    } else if chr == "chr7"@ {
        Some("NC_000073"@)
    } else if chr == "chr8"@ {
        Some("NC_000074"@)
    } else if chr == "chr9"@ {
        Some("NC_000075"@)
    } else if chr == "chr10"@ {
        Some("NC_000076"@)
    } else if chr == "chr11"@ {
        Some("NC_000077"@)
    } else if chr == "chr12"@ {
        Some("NC_000078"@)
    } else if chr == "chr13"@ {
        Some("NC_000079"@)
    } else if chr == "chr14"@ {
        Some("NC_000080"@)
    } else if chr == "chr15"@ {
        Some("NC_000081"@)
    } else if chr == "chr16"@ {
        Some("NC_000082"@)
    } else if chr == "chr17"@ {
        Some("NC_000083"@)
    } else if chr == "chr18"@ {
        Some("NC_000084"@)
    } else if chr == "chr19"@ {
        Some("NC_000085"@)
    } else if chr == "chrX"@ {
        Some("NC_000086"@)
    } else if chr == "chrY"@ {
        Some("NC_000087"@)
    } else if chr == "chrM"@ {
        Some("NC_005089"@)
    } else {
        None
    }
}

/// Accessions of the yeast chromosomes.
pub open spec fn yeast_accession(chr: Seq<char>) -> Option<Seq<char>> {
    if chr == "chrI"@ {
        Some("NC_001133"@)
    } else if chr == "chrII"@ {
        Some("NC_001134"@)
    } else if chr == "chrIII"@ {
        Some("NC_001135"@)
    } else if chr == "chrIV"@ {
        Some("NC_001136"@)
    } else if chr == "chrV"@ {
        Some("NC_001137"@)
    } else if chr == "chrVI"@ {
        Some("NC_001138"@)
    } else if chr == "chrVII"@ {
        Some("NC_001139"@)
    } else if chr == "chrVIII"@ {
        Some("NC_001140"@)
    } else if chr == "chrIX"@ {
        Some("NC_001141"@)
    } else if chr == "chrX"@ {
        Some("NC_001142"@)
    } else if chr == "chrXI"@ {
        Some("NC_001143"@)
    } else if chr == "chrXII"@ {
        Some("NC_001144"@)
    } else if chr == "chrXIII"@ {
        Some("NC_001145"@)
    } else if chr == "chrXIV"@ {
        Some("NC_001146"@)
    } else if chr == "chrXV"@ {
        Some("NC_001147"@)
    } else if chr == "chrXVI"@ {
        Some("NC_001148"@)
    } else if chr == "chrM"@ {
        Some("NC_001224"@)
    } else {
        None
    }
}

/// Accessions of the chromosomes of Arabidopsis thaliana.
pub open spec fn thaliana_accession(chr: Seq<char>) -> Option<Seq<char>> {
    if chr == "chr1"@ {
        Some("NC_003070"@)
    } else if chr == "chr2"@ {
        Some("NC_003071"@)
    } else if chr == "chr3"@ {
        Some("NC_003074"@)
    } else if chr == "chr4"@ {
        Some("NC_003075"@)
    } else if chr == "chr5"@ {
        Some("NC_003076"@)
    } else if chr == "chrM"@ {
        Some("NC_001284"@)
    } else if chr == "chrC"@ {
        Some("NC_000932"@)
    } else {
        None
    }
}

/// Accession of a human chromosome; an unknown name is returned as it is.
pub fn chr_to_nc(chr: &str) -> (r: String)
    ensures
        r@ == resolved(human_accession(chr@), chr@),
{
    if str_eq(chr, "chr1") {
        return "NC_000001".to_owned();
    }
    if str_eq(chr, "chr2") {
        return "NC_000002".to_owned();
    }
    if str_eq(chr, "chr3") {
        return "NC_000003".to_owned();
    }
    if str_eq(chr, "chr4") {
        return "NC_000004".to_owned();
    }
    if str_eq(chr, "chr5") {
        return "NC_000005".to_owned();
    }
    if str_eq(chr, "chr6") {
        return "NC_000006".to_owned();
    }
    if str_eq(chr, "chr7") {
        return "NC_000007".to_owned();
    }
    if str_eq(chr, "chr8") {
        return "NC_000008".to_owned();
    }
    if str_eq(chr, "chr9") {
        return "NC_000009".to_owned();
    }
    if str_eq(chr, "chr10") {
        return "NC_000010".to_owned();
    }
    if str_eq(chr, "chr11") {
        return "NC_000011".to_owned();
    }
    if str_eq(chr, "chr12") {
        return "NC_000012".to_owned();
    }
    if str_eq(chr, "chr13") {
        return "NC_000013".to_owned();
    }
    if str_eq(chr, "chr14") {
        return "NC_000014".to_owned();
    }
    if str_eq(chr, "chr15") {
        return "NC_000015".to_owned();
    }
    if str_eq(chr, "chr16") {
        return "NC_000016".to_owned();
    }
    if str_eq(chr, "chr17") {
        return "NC_000017".to_owned();
    }
    if str_eq(chr, "chr18") {
        return "NC_000018".to_owned();
    }
    if str_eq(chr, "chr19") {
        return "NC_000019".to_owned();
    }
    if str_eq(chr, "chr20") {
        return "NC_000020".to_owned();
    }
    if str_eq(chr, "chr21") {
        return "NC_000021".to_owned();
    }
    if str_eq(chr, "chr22") {
        return "NC_000022".to_owned();
    }
    if str_eq(chr, "chrX") {
        return "NC_000023".to_owned();
    }
    if str_eq(chr, "chrY") {
        return "NC_000024".to_owned();
    }
    if str_eq(chr, "chrM") {
        return "NC_012920".to_owned();
    }
    chr.to_owned()
}

/// Accession of a mouse chromosome; an unknown name is returned as it is.
pub fn chr_to_nc_mouse(chr: &str) -> (r: String)
    ensures
        r@ == resolved(mouse_accession(chr@), chr@),
{
    if str_eq(chr, "chr1") {
        return "NC_000067".to_owned();
    }
    if str_eq(chr, "chr2") {
        return "NC_000068".to_owned();
    }
    if str_eq(chr, "chr3") {
        return "NC_000069".to_owned();
    }
    if str_eq(chr, "chr4") {
        return "NC_000070".to_owned();
    }
    if str_eq(chr, "chr5") {
        return "NC_000071".to_owned();
    }
    if str_eq(chr, "chr6") {
        return "NC_000072".to_owned();
    }
    if str_eq(chr, "chr7") {
        return "NC_000073".to_owned();
    }
    if str_eq(chr, "chr8") {
        return "NC_000074".to_owned();
    }
    if str_eq(chr, "chr9") {
        return "NC_000075".to_owned();
    }
    if str_eq(chr, "chr10") {
        return "NC_000076".to_owned();
    }
    if str_eq(chr, "chr11") {
        return "NC_000077".to_owned();
    }
    if str_eq(chr, "chr12") {
        return "NC_000078".to_owned();
    }
    if str_eq(chr, "chr13") {
        return "NC_000079".to_owned();
    }
    if str_eq(chr, "chr14") {
        return "NC_000080".to_owned();
    }
    if str_eq(chr, "chr15") {
        return "NC_000081".to_owned();
    }
    if str_eq(chr, "chr16") {
        return "NC_000082".to_owned();
    }
    if str_eq(chr, "chr17") {
        return "NC_000083".to_owned();
    }
    if str_eq(chr, "chr18") {
        return "NC_000084".to_owned();
    }
    if str_eq(chr, "chr19") {
        return "NC_000085".to_owned();
    }
    if str_eq(chr, "chrX") {
        return "NC_000086".to_owned();
    }
    if str_eq(chr, "chrY") {
        return "NC_000087".to_owned();
    }
    if str_eq(chr, "chrM") {
        return "NC_005089".to_owned();
    }
    chr.to_owned()
}

/// Accession of a yeast chromosome; an unknown name is returned as it is.
pub fn chr_to_nc_yeast(chr: &str) -> (r: String)
    ensures
        r@ == resolved(yeast_accession(chr@), chr@),
{
    if str_eq(chr, "chrI") {
        return "NC_001133".to_owned();
    }
    if str_eq(chr, "chrII") {
        return "NC_001134".to_owned();
    }
    if str_eq(chr, "chrIII") {
        return "NC_001135".to_owned();
    }
    if str_eq(chr, "chrIV") {
        return "NC_001136".to_owned();
    }
    if str_eq(chr, "chrV") {
        return "NC_001137".to_owned();
    }
    if str_eq(chr, "chrVI") {
        return "NC_001138".to_owned();
    }
    if str_eq(chr, "chrVII") {
        return "NC_001139".to_owned();
    }
    if str_eq(chr, "chrVIII") {
        return "NC_001140".to_owned();
    }
    if str_eq(chr, "chrIX") {
        return "NC_001141".to_owned();
    }
    if str_eq(chr, "chrX") {
        return "NC_001142".to_owned();
    }
    if str_eq(chr, "chrXI") {
        return "NC_001143".to_owned();
    }
    if str_eq(chr, "chrXII") {
        return "NC_001144".to_owned();
    }
    if str_eq(chr, "chrXIII") {
        return "NC_001145".to_owned();
    }
    if str_eq(chr, "chrXIV") {
        return "NC_001146".to_owned();
    }
    if str_eq(chr, "chrXV") {
        return "NC_001147".to_owned();
    }
    if str_eq(chr, "chrXVI") {
        return "NC_001148".to_owned();
    }
    if str_eq(chr, "chrM") {
        return "NC_001224".to_owned();
    }
    chr.to_owned()
}

/// Accession of a chromosome of Arabidopsis thaliana; an unknown name is returned as it is.
pub fn chr_to_nc_at(chr: &str) -> (r: String)
    ensures
        r@ == resolved(thaliana_accession(chr@), chr@),
{
    if str_eq(chr, "chr1") {
        return "NC_003070".to_owned();
    }
    if str_eq(chr, "chr2") {
        return "NC_003071".to_owned();
    }
    if str_eq(chr, "chr3") {
        return "NC_003074".to_owned();
    }
    if str_eq(chr, "chr4") {
        return "NC_003075".to_owned();
    }
    if str_eq(chr, "chr5") {
        return "NC_003076".to_owned();
    }
    if str_eq(chr, "chrM") {
        return "NC_001284".to_owned();
    }
    if str_eq(chr, "chrC") {
        return "NC_000932".to_owned();
    }
    chr.to_owned()
}

/// The accession table of a species, by its two-letter code.
pub open spec fn species_accession(species: Seq<char>, chr: Seq<char>) -> Option<Seq<char>> {
    if species == "hu"@ {
        human_accession(chr)
    } else if species == "mo"@ {
        mouse_accession(chr)
    } else if species == "ye"@ {
        yeast_accession(chr)
    } else if species == "at"@ {
        thaliana_accession(chr)
    } else {
        None
    }
}

/// Accession of a chromosome of the given species; an unknown species or
/// name gives the name itself.
pub fn get_chr_nc_for_species(species: &str, chr: &str) -> (r: String)
    ensures
        r@ == resolved(species_accession(species@, chr@), chr@),
{
    if str_eq(species, "hu") {
        chr_to_nc(chr)
    } else if str_eq(species, "mo") {
        chr_to_nc_mouse(chr)
    } else if str_eq(species, "ye") {
        chr_to_nc_yeast(chr)
    } else if str_eq(species, "at") {
        chr_to_nc_at(chr)
    } else {
        chr.to_owned()
    }
}

/// The part of `key` before its first `.`, or all of it where it has none.
pub fn get_key_prefix(key: &[u8]) -> (r: &[u8])
    ensures
        r@.len() <= key@.len(),
        r@ == key@.take(r@.len() as int),
        !r@.contains(46u8),
        r@.len() < key@.len() ==> key@[r@.len() as int] == 46,
{
    let i = find_byte(key, 46);
    let r = slice_subrange(key, 0, i);
    proof {
        assert(r@ =~= key@.take(i as int));
    }
    r
}

} // verus!
