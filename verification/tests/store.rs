use evo::{create_evo, edit_var, fetch_vars, set_var, unset_var};

#[test]
fn test_fetch_vars() {
    let vars = fetch_vars("export SHLVL=0\n").unwrap();
    assert_eq!(vars.get("SHLVL").unwrap().as_str(), "0");
}

#[test]
fn test_create_evo() {
    let vars = fetch_vars("export SHLVL=0\n").unwrap();
    let content = create_evo(&vars);
    assert_eq!(content.as_str(), "export SHLVL=0\n");
}

#[test]
fn test_set_var() {
    let (content, vars) = set_var(Some("export SHLVL=1\n"), "SHLVL", String::from("0")).unwrap();
    assert_eq!(content.as_str(), "export SHLVL=1\nexport SHLVL=0\n");
    assert_eq!(vars.get("SHLVL").unwrap().as_str(), "0");
    let refetched = fetch_vars(content.as_str()).unwrap();
    assert_eq!(refetched.get("SHLVL").unwrap().as_str(), "0");
}

#[test]
fn test_edit_var() {
    let (content, vars) = edit_var(Some("export SHLVL=0\n"), "SHLVL", String::from("2")).unwrap();
    assert_eq!(content.as_str(), "export SHLVL=2\n");
    assert_eq!(vars.get("SHLVL").unwrap().as_str(), "2");
}

#[test]
fn test_unset_var() {
    let (content, vars) = unset_var(Some("export SHLVL=0\n"), "SHLVL").unwrap();
    assert_eq!(content.as_str(), "");
    assert_eq!(vars.get("SHLVL").unwrap().as_str(), "");
}
