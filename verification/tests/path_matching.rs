use netsim::node::server::{map_url_to_path_with_params, strip_params, EndpointMatch};

#[test]
fn should_return_matching_path_and_empty_params_for_root() {
    let url: &str = "/";
    let endpoints_paths = ["/".to_string()];

    let endpoints_paths: Vec<&String> = endpoints_paths.iter().collect();

    assert_eq!(
        Some(EndpointMatch {
            path: &"/".to_string(),
            params: Vec::new()
        }),
        map_url_to_path_with_params(url, endpoints_paths)
    )
}

#[test]
fn should_return_matching_path_with_single_param_after_root() {
    let url: &str = "/1";
    let endpoints_paths = ["/:id".to_string()];

    let endpoints_paths: Vec<&String> = endpoints_paths.iter().collect();

    assert_eq!(
        Some(EndpointMatch {
            path: &"/:id".to_string(),
            params: vec![("id".to_string(), "1".to_string())]
        }),
        map_url_to_path_with_params(url, endpoints_paths)
    )
}

#[test]
fn should_return_matching_path_with_single_param() {
    let url: &str = "/orders/1";
    let endpoints_paths = [
        "/orders".to_string(),
        "/orders/:id".to_string(),
        "/orders/:id/items".to_string(),
        "/users".to_string(),
        "/users/:id".to_string(),
        "/users/:id/messages".to_string(),
    ];

    let endpoints_paths: Vec<&String> = endpoints_paths.iter().collect();

    assert_eq!(
        Some(EndpointMatch {
            path: &"/orders/:id".to_string(),
            params: vec![("id".to_string(), "1".to_string())]
        }),
        map_url_to_path_with_params(url, endpoints_paths)
    )
}

#[test]
fn should_return_matching_path_with_multiple_params() {
    let url: &str = "/orders/123/items/456";
    let endpoints_paths = [
        "/orders".to_string(),
        "/orders/:orderId".to_string(),
        "/orders/:orderId/items".to_string(),
        "/orders/:orderId/items/:itemId".to_string(),
        "/orders/:orderId/items/:itemId/id".to_string(),
    ];

    let endpoints_paths: Vec<&String> = endpoints_paths.iter().collect();

    assert_eq!(
        Some(EndpointMatch {
            path: &"/orders/:orderId/items/:itemId".to_string(),
            params: vec![
                ("orderId".to_string(), "123".to_string()),
                ("itemId".to_string(), "456".to_string())
            ]
        }),
        map_url_to_path_with_params(url, endpoints_paths)
    )
}

#[test]
fn should_return_none_for_no_matching_path() {
    let url: &str = "/users/123";
    let endpoints_paths = [
        "/users".to_string(),
        "/users/:userId/messages".to_string(),
        "/orders/:orderId/items".to_string(),
        "/orders/:orderId/items/:itemId".to_string(),
    ];

    let endpoints_paths: Vec<&String> = endpoints_paths.iter().collect();

    assert_eq!(None, map_url_to_path_with_params(url, endpoints_paths))
}

#[test]
fn strip_params_normalizes_parameter_names() {
    assert_eq!(strip_params("/orders/:id/items"), "/orders/param/items");
    assert_eq!(strip_params("/orders/:orderId/items"), "/orders/param/items");
    assert_eq!(strip_params("/"), "/");
    assert_eq!(strip_params("/plain/path"), "/plain/path");
}

#[test]
fn segment_count_mismatch_never_matches() {
    let endpoints_paths = ["/a/b/c".to_string(), "/:x/:y".to_string()];
    let endpoints_paths: Vec<&String> = endpoints_paths.iter().collect();
    assert_eq!(None, map_url_to_path_with_params("/a", endpoints_paths));
}

#[test]
fn parameter_binding_example() {
    let endpoints_paths = ["/orders".to_string(), "/orders/:id".to_string()];
    let endpoints_paths: Vec<&String> = endpoints_paths.iter().collect();
    assert_eq!(
        Some(EndpointMatch {
            path: &"/orders/:id".to_string(),
            params: vec![("id".to_string(), "1".to_string())]
        }),
        map_url_to_path_with_params("/orders/1", endpoints_paths)
    )
}

#[test]
fn segment_count_mismatch_example() {
    let endpoints_paths = ["/users".to_string(), "/users/:id/messages".to_string()];
    let endpoints_paths: Vec<&String> = endpoints_paths.iter().collect();
    assert_eq!(None, map_url_to_path_with_params("/users/123", endpoints_paths))
}
