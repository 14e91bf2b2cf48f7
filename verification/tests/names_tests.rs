use stone_genome::names::{
    chr_to_nc, chr_to_nc_at, chr_to_nc_mouse, chr_to_nc_yeast, get_chr_nc_for_species,
    get_key_prefix, str_eq,
};

#[test]
fn human_names() {
    assert_eq!(chr_to_nc("chr1"), "NC_000001");
    assert_eq!(chr_to_nc("chr22"), "NC_000022");
    assert_eq!(chr_to_nc("chrX"), "NC_000023");
    assert_eq!(chr_to_nc("chrY"), "NC_000024");
    assert_eq!(chr_to_nc("chrM"), "NC_012920");
    assert_eq!(chr_to_nc("chr23"), "chr23");
    assert_eq!(chr_to_nc(""), "");
}

#[test]
fn mouse_names() {
    assert_eq!(chr_to_nc_mouse("chr1"), "NC_000067");
    assert_eq!(chr_to_nc_mouse("chr19"), "NC_000085");
    assert_eq!(chr_to_nc_mouse("chrX"), "NC_000086");
    assert_eq!(chr_to_nc_mouse("chrY"), "NC_000087");
    assert_eq!(chr_to_nc_mouse("chrM"), "NC_005089");
    assert_eq!(chr_to_nc_mouse("chr20"), "chr20");
}

#[test]
fn yeast_names() {
    assert_eq!(chr_to_nc_yeast("chrI"), "NC_001133");
    assert_eq!(chr_to_nc_yeast("chrIV"), "NC_001136");
    assert_eq!(chr_to_nc_yeast("chrX"), "NC_001142");
    assert_eq!(chr_to_nc_yeast("chrXVI"), "NC_001148");
    assert_eq!(chr_to_nc_yeast("chrM"), "NC_001224");
    assert_eq!(chr_to_nc_yeast("chr1"), "chr1");
}

#[test]
fn thaliana_names() {
    assert_eq!(chr_to_nc_at("chr1"), "NC_003070");
    assert_eq!(chr_to_nc_at("chr3"), "NC_003074");
    assert_eq!(chr_to_nc_at("chr5"), "NC_003076");
    assert_eq!(chr_to_nc_at("chrM"), "NC_001284");
    assert_eq!(chr_to_nc_at("chrC"), "NC_000932");
    assert_eq!(chr_to_nc_at("chr6"), "chr6");
}

#[test]
fn names_by_species() {
    assert_eq!(get_chr_nc_for_species("hu", "chr2"), "NC_000002");
    assert_eq!(get_chr_nc_for_species("mo", "chr2"), "NC_000068");
    assert_eq!(get_chr_nc_for_species("ye", "chrII"), "NC_001134");
    assert_eq!(get_chr_nc_for_species("at", "chr2"), "NC_003071");
    assert_eq!(get_chr_nc_for_species("zz", "chr2"), "chr2");
    assert_eq!(get_chr_nc_for_species("hu", "scaffold"), "scaffold");
}

#[test]
fn key_prefix_stops_at_first_dot() {
    assert_eq!(get_key_prefix(b"NC_000001.11"), b"NC_000001");
    assert_eq!(get_key_prefix(b"a.b.c"), b"a");
    assert_eq!(get_key_prefix(b"nodot"), b"nodot");
    assert_eq!(get_key_prefix(b".x"), b"");
    assert_eq!(get_key_prefix(b""), b"");
}

#[test]
fn string_equality() {
    assert!(str_eq("abc", "abc"));
    assert!(!str_eq("abc", "abd"));
    assert!(!str_eq("abc", "ab"));
    assert!(str_eq("", ""));
}
