use greedy_dag::unextractable::{get_unextractables, FunctionInfo};

fn function(name: &str, extractable: bool) -> FunctionInfo {
    FunctionInfo { name: name.to_string(), extractable }
}

fn names_of(functions: &Vec<FunctionInfo>) -> Vec<String> {
    get_unextractables(functions).into_iter().collect()
}

#[test]
fn unextractable_names_come_in_order() {
    let functions = vec![
        function("Var", true),
        function("Reg", false),
        function("Gate", true),
        function("Wire", false),
        function("Connect", false),
    ];
    assert_eq!(names_of(&functions), vec!["Reg", "Wire", "Connect"]);
}

#[test]
fn extractable_functions_are_left_out() {
    let functions = vec![function("Var", true), function("Not", true)];
    assert!(get_unextractables(&functions).is_empty());
    assert!(get_unextractables(&Vec::new()).is_empty());
}

#[test]
fn repeated_name_is_listed_once_at_its_first_place() {
    let functions = vec![
        function("b", false),
        function("a", false),
        function("b", false),
        function("a", true),
        function("c", false),
    ];
    assert_eq!(names_of(&functions), vec!["b", "a", "c"]);
}

#[test]
fn names_are_told_apart_letter_by_letter() {
    let functions = vec![function("ab", false), function("a", false), function("", false)];
    let names = get_unextractables(&functions);
    assert_eq!(names.len(), 3);
    assert!(names.contains("a"));
    assert!(names.contains(""));
    assert!(!names.contains("b"));
}
