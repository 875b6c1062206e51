use rsomics_eigenvector_centrality::python_exponent;

fn python_sci(v: f64) -> String {
    python_exponent(&format!("{v:.17e}")).unwrap()
}

#[test]
fn scientific_matches_python() {
    assert_eq!(python_sci(0.5773502691896258), "5.77350269189625842e-01");
    assert_eq!(python_sci(0.5), "5.00000000000000000e-01");
    assert_eq!(python_sci(1.0), "1.00000000000000000e+00");
    assert_eq!(python_sci(12.5), "1.25000000000000000e+01");
}

#[test]
fn exponent_rewrite_on_raw_text() {
    assert_eq!(python_exponent("1.5e-7").unwrap(), "1.5e-07");
    assert_eq!(python_exponent("1.5e7").unwrap(), "1.5e+07");
    assert_eq!(python_exponent("2e123").unwrap(), "2e+123");
    assert_eq!(python_exponent("2e-300").unwrap(), "2e-300");
    assert_eq!(python_exponent("3e").unwrap(), "3e+00");
    assert_eq!(python_exponent("3e-").unwrap(), "3e-00");
    // only the first 'e' splits
    assert_eq!(python_exponent("aeb").unwrap(), "ae+0b");
}

#[test]
fn exponent_rewrite_without_e() {
    assert_eq!(python_exponent("NaN"), None);
    assert_eq!(python_exponent("inf"), None);
    assert_eq!(python_exponent(""), None);
}
