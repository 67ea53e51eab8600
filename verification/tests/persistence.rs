use interactive_voronoi::codec::load;
use interactive_voronoi::codec::save;
use interactive_voronoi::codec::LoadError;
use interactive_voronoi::geom::Site;

fn site(x: i64, y: i64) -> Site {
    Site { x, y }
}

#[test]
fn save_empty_is_bare_brackets() {
    let sites: Vec<Site> = vec![];
    assert_eq!(save(&sites), b"[]".to_vec());
    assert_eq!(load(&b"[]".to_vec()).unwrap(), sites);
}

#[test]
fn save_writes_all_fraction_digits() {
    let sites = vec![site(120_500_000, 340_000_000), site(88_000_000, 12_250_000)];
    assert_eq!(
        save(&sites),
        b"[[120.500000,340.000000],[88.000000,12.250000]]".to_vec()
    );
}

#[test]
fn round_trip_preserves_coordinates_and_order() {
    let sites = vec![
        site(120_500_000, 340_000_000),
        site(88_000_000, 12_250_000),
        site(-500_000, -3_250_000),
        site(999_999_999_999_999_999, -999_999_999_999_999_999),
        site(0, 1),
    ];
    let text = save(&sites);
    assert_eq!(load(&text).unwrap(), sites);
}

#[test]
fn load_parses_short_decimals() {
    let sites = load(&b"[[120.5,340.0],[88.0,12.25]]".to_vec()).unwrap();
    assert_eq!(
        sites,
        vec![site(120_500_000, 340_000_000), site(88_000_000, 12_250_000)]
    );
}

#[test]
fn load_parses_integers_negatives_and_whitespace() {
    let sites = load(&b" [ [ 10 , -0.5 ]\t,\n[ -7.25 , 3 ] ] ".to_vec()).unwrap();
    assert_eq!(sites, vec![site(10_000_000, -500_000), site(-7_250_000, 3_000_000)]);
}

#[test]
fn load_refuses_malformed_text() {
    let bad: Vec<&[u8]> = vec![
        b"",
        b"[",
        b"[[1.0]]",
        b"[[1.0,2.0],]",
        b"[[1.0,2.0]",
        b"[[1.0,2.0]] junk",
        b"[[1.0,2.0],[3.0]]",
        b"[[a,2.0]]",
        b"[[1.,2.0]]",
        b"[[1.0,2.0]]]",
        b"1.0,2.0",
        b"[[--1.0,2.0]]",
    ];
    for text in bad {
        assert_eq!(load(&text.to_vec()), Err(LoadError::MalformedInput), "{:?}", text);
    }
}

#[test]
fn load_refuses_numbers_past_the_resolution() {
    // seven fractional digits and thirteen integer digits are out of range
    assert!(load(&b"[[1.1234567,0.0]]".to_vec()).is_err());
    assert!(load(&b"[[1000000000000.0,0.0]]".to_vec()).is_err());
    // six and twelve are accepted
    assert_eq!(
        load(&b"[[1.123456,0.0]]".to_vec()).unwrap(),
        vec![site(1_123_456, 0)]
    );
    assert_eq!(
        load(&b"[[999999999999.0,0.0]]".to_vec()).unwrap(),
        vec![site(999_999_999_999_000_000, 0)]
    );
}
