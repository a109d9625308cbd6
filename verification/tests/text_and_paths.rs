use simple_starter::text::{
    combine_paths, convert_path_params, ends_with, get_short_type_name, starts_with,
    to_snake_case, to_snake_case_ascii, trim_end_matches, trim_matches,
};

#[test]
fn combine_paths_normalises_slashes() {
    assert_eq!(combine_paths("/api/", "/users"), "/api/users");
    assert_eq!(combine_paths("", ""), "/");
    assert_eq!(combine_paths("//", "/"), "/");
    assert_eq!(combine_paths("", "list"), "/list");
    assert_eq!(combine_paths("api", ""), "/api");
    assert_eq!(combine_paths("api/v1", "items/{id}/"), "/api/v1/items/{id}");
}

#[test]
fn path_params_become_colon_params() {
    assert_eq!(convert_path_params("/users/{id}"), "/users/:id");
    assert_eq!(convert_path_params("/a/{x}/b/{y}"), "/a/:x/b/:y");
    assert_eq!(convert_path_params("/plain"), "/plain");
    assert_eq!(convert_path_params("/open/{rest"), "/open/:rest");
    assert_eq!(convert_path_params("/nested/{a{b}c"), "/nested/:a{bc");
    assert_eq!(convert_path_params(""), "");
}

#[test]
fn snake_case_of_type_names() {
    assert_eq!(to_snake_case_ascii("MyService"), "my_service");
    assert_eq!(to_snake_case_ascii("HTTPClient"), "h_t_t_p_client");
    assert_eq!(to_snake_case_ascii("already_snake"), "already_snake");
    assert_eq!(to_snake_case_ascii(""), "");
    assert_eq!(to_snake_case("TestController"), "test_controller");
    assert_eq!(to_snake_case("testController"), "test_controller");
    assert_eq!(to_snake_case("ÀbcDé"), "àbc_dé");
    assert_eq!(to_snake_case("A"), "a");
}

#[test]
fn ascii_and_unicode_snake_case_differ_on_non_ascii_capitals() {
    // The accessor-name form lowers ASCII only; the controller-name form
    // lowers every uppercase character.
    assert_eq!(to_snake_case_ascii("ÉtatX"), "État_x");
    assert_eq!(to_snake_case("ÉtatX"), "état_x");
}

#[test]
fn short_type_names() {
    assert_eq!(get_short_type_name("alloc::string::String"), "String");
    assert_eq!(get_short_type_name("Plain"), "Plain");
    assert_eq!(get_short_type_name("a::b::"), "");
    assert_eq!(get_short_type_name("a:::b"), ":b");
    assert_eq!(get_short_type_name("my_app::Wrapper<core::Inner>"), "Inner>");
}

#[test]
fn prefixes_suffixes_and_trimming() {
    assert!(starts_with("/public/a", "/public"));
    assert!(!starts_with("/pub", "/public"));
    assert!(starts_with("x", ""));
    assert!(ends_with("/public/*", "/*"));
    assert!(!ends_with("*", "/*"));
    assert_eq!(trim_end_matches("/base///", '/'), "/base");
    assert_eq!(trim_end_matches("///", '/'), "");
    assert_eq!(trim_matches("//a/b//", '/'), "a/b");
    assert_eq!(trim_matches("", '/'), "");
}
