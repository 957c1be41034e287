use airfoil_panel::naca::{check_naca4_code, naca4_layout, parse_naca4, NacaError, StationPoint};

#[test]
fn naca_2412() {
    assert!(check_naca4_code("2412").is_ok());
    let a = parse_naca4("2412");
    assert_eq!(a.name, "NACA 2412");
    assert_eq!(a.max_camber_pct, 2);
    assert_eq!(a.camber_pos_tenths, 4);
    assert_eq!(a.thickness_pct, 12);
}

#[test]
fn naca_0012_is_symmetric() {
    assert!(check_naca4_code("0012").is_ok());
    let a = parse_naca4("0012");
    assert_eq!((a.max_camber_pct, a.camber_pos_tenths, a.thickness_pct), (0, 0, 12));
}

#[test]
fn non_digit_is_refused() {
    assert_eq!(check_naca4_code("24a2"), Err(NacaError::InvalidDigit));
    assert_eq!(check_naca4_code("2412 "), Err(NacaError::InvalidDigit));
    assert_eq!(check_naca4_code("x"), Err(NacaError::InvalidDigit));
    assert_eq!(check_naca4_code("２４１２"), Err(NacaError::InvalidDigit));
}

#[test]
fn wrong_length_is_refused() {
    assert_eq!(check_naca4_code(""), Err(NacaError::WrongLength));
    assert_eq!(check_naca4_code("241"), Err(NacaError::WrongLength));
    assert_eq!(check_naca4_code("24120"), Err(NacaError::WrongLength));
}

#[test]
fn layout_of_no_station() {
    assert!(naca4_layout(0).is_empty());
}

#[test]
fn layout_of_one_station() {
    assert_eq!(naca4_layout(1), vec![StationPoint { station: 0, upper: true }]);
}

#[test]
fn layout_of_three_stations_runs_te_upper_le_lower() {
    let up = |s| StationPoint { station: s, upper: true };
    let lo = |s| StationPoint { station: s, upper: false };
    assert_eq!(naca4_layout(3), vec![up(2), up(1), up(0), lo(1), lo(2)]);
}

#[test]
fn layout_counts() {
    for n in 1..20usize {
        let l = naca4_layout(n);
        assert_eq!(l.len(), 2 * n - 1);
        // upper surface first, from the last station down to the leading edge
        for k in 0..n {
            assert_eq!(l[k], StationPoint { station: n - 1 - k, upper: true });
        }
        // then the lower surface back out
        for k in n..2 * n - 1 {
            assert_eq!(l[k], StationPoint { station: k - n + 1, upper: false });
        }
        for s in 0..n {
            assert_eq!(l.iter().filter(|p| p.station == s && p.upper).count(), 1);
            let lower = l.iter().filter(|p| p.station == s && !p.upper).count();
            assert_eq!(lower, if s == 0 { 0 } else { 1 });
        }
    }
}
