use airfoil_panel::names::{cl_file_name, cp_file_name, is_dat_file_name, safe_name};

#[test]
fn spaces_become_underscores() {
    assert_eq!(safe_name("NACA 2412"), "NACA_2412");
    assert_eq!(safe_name("  a b  "), "__a_b__");
    assert_eq!(safe_name(""), "");
    assert_eq!(safe_name("é ü"), "é_ü");
}

#[test]
fn sanitized_name_keeps_length_and_has_no_space() {
    for n in ["a b c", "no-space", " x", "tab\there"] {
        let s = safe_name(n);
        assert_eq!(s.chars().count(), n.chars().count());
        assert!(!s.contains(' '));
    }
}

#[test]
fn cp_file_names() {
    assert_eq!(cp_file_name("NACA 2412", -5), "NACA_2412_alpha-5_cp.csv");
    assert_eq!(cp_file_name("NACA 2412", 0), "NACA_2412_alpha0_cp.csv");
    assert_eq!(cp_file_name("e387", 15), "e387_alpha15_cp.csv");
    assert_eq!(cp_file_name("x", i32::MIN), "x_alpha-2147483648_cp.csv");
    assert_eq!(cp_file_name("x", i32::MAX), "x_alpha2147483647_cp.csv");
}

#[test]
fn cp_file_name_matches_formatting() {
    for a in [-100, -10, -9, -1, 0, 1, 9, 10, 99, 100, 12345] {
        assert_eq!(cp_file_name("a b", a), format!("a_b_alpha{}_cp.csv", a));
    }
}

#[test]
fn cl_file_names() {
    assert_eq!(cl_file_name("NACA 2412"), "NACA_2412_cl.csv");
    assert_eq!(cl_file_name(""), "_cl.csv");
}

#[test]
fn dat_extension() {
    assert!(is_dat_file_name("naca2412.dat"));
    assert!(is_dat_file_name("a.b.dat"));
    assert!(is_dat_file_name("x.dat"));
    assert!(!is_dat_file_name(".dat"));
    assert!(!is_dat_file_name("a.dat.bak"));
    assert!(!is_dat_file_name("a.DAT"));
    assert!(!is_dat_file_name("dat"));
    assert!(!is_dat_file_name("adat"));
    assert!(!is_dat_file_name(""));
    assert!(!is_dat_file_name(".."));
}

#[test]
fn dat_extension_matches_path() {
    for n in ["a.dat", ".dat", "..dat", "a.dat.", "b.csv", "c", ".hidden.dat", "x..dat"] {
        let std_says = std::path::Path::new(n).extension().and_then(|e| e.to_str()) == Some("dat");
        assert_eq!(is_dat_file_name(n), std_says, "{}", n);
    }
}

#[test]
fn result_file_names_never_collide() {
    let names: Vec<String> = (-20..=20).map(|a| cp_file_name("NACA 0012", a)).collect();
    let mut sorted = names.clone();
    sorted.sort();
    sorted.dedup();
    assert_eq!(sorted.len(), names.len());
    for n in &names {
        assert_ne!(*n, cl_file_name("NACA 0012"));
        assert_ne!(*n, cl_file_name("NACA 0012_alpha0"));
    }
}
