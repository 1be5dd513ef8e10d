use minihttp::protocol::StatusCode;
use minihttp::request::{Method, Request};
use minihttp::response::Response;
use minihttp::router::params::{new_params, params_from, Params};
use minihttp::router::tree::node::Node;
use minihttp::router::tree::pattern::split_path;
use minihttp::router::tree::Tree;
use minihttp::router::{Context, Failure, Handler, HandlerFn, HookType, Return};
use std::rc::Rc;

/// A handler that puts its number into the status of the response.
struct Status(u32);

impl HandlerFn for Status {
    fn call(&self, ctx: &mut Context<'_, Self>) -> Result<Return, Failure> {
        ctx.res.status(StatusCode::Other(self.0 as u16, String::new()));
        Ok(Return::End)
    }
}

fn __handler(status: u32, path: &str) -> Handler<Status> {
    Handler {
        function: Rc::new(Status(status)),
        hook_type: HookType::Main,
        method: Method::Get,
        path: path.to_string(),
    }
}

fn node<'a>(tree: &'a Tree<Status>, id: usize) -> &'a Node<Status> {
    tree.node(id).unwrap()
}

fn parent(tree: &Tree<Status>, id: usize) -> usize {
    tree.parent(id).unwrap()
}

fn test_node_exist(tree: &Tree<Status>, path: &str) -> usize {
    let mut parent = tree.root();
    for (i, fragment) in split_path(path).into_iter().enumerate() {
        let id = if i == 0 {
            tree.root()
        } else {
            tree.child(parent, &fragment).unwrap()
        };

        let ref_node = node(tree, id);
        if i == 0 {
            assert!(ref_node.parent.is_none());
            assert!(ref_node.next.len() >= 1);
            continue;
        }

        assert!(ref_node.parent.is_some());
        assert!(parent == tree.parent(id).unwrap());
        assert!(ref_node.fragment == fragment);

        parent = id;
    }

    parent
}

fn test_handler(h: &Rc<Handler<Status>>, status: u32) {
    let req = Request::new(None);
    let mut res = Response::new();
    let params = new_params();
    let result = {
        let mut ctx = Context { req: &req, res: &mut res, params: &params, handler: h.as_ref() };
        h.function.call(&mut ctx)
    };
    assert!(result.is_ok());
    assert_eq!(res.status.to_u16() as u32, status);
}

fn test_handler_exist(node: &Node<Status>, index: usize, priority: u32, status: u32) {
    assert!(node.handlers.len() > index);
    assert_eq!(node.handlers[index].0, priority);
    test_handler(&node.handlers[index].1, status);
}

fn strmap(pairs: &[(&str, &str)]) -> Params {
    params_from(pairs.iter().map(|(k, v)| (k.to_string(), v.to_string())).collect())
}

#[test]
fn tree_correct_tree_initialization() {
    let tree: Tree<Status> = Tree::new();
    let node = node(&tree, tree.root());

    assert_eq!(tree.order(), 0);
    assert_eq!(node.fragment, "root");
    assert!(node.parent.is_none());
    assert_eq!(node.next.len(), 0);
}

#[test]
fn tree_slashed_prefix_test() {
    let mut tree = Tree::new();
    let path = "/a/b/c/d";

    tree.register(__handler(200, &path));
    assert_eq!(tree.order(), 1);

    let root = node(&tree, tree.root());
    assert!(root.next.len() == 1);

    let id = test_node_exist(&tree, path);
    test_handler_exist(node(&tree, id), 0, 0, 200);

    assert!(node(&tree, id).next.len() == 0);
}

#[test]
fn tree_unslashed_prefix_test() {
    let mut tree = Tree::new();
    let path = "a/b/c/d";

    tree.register(__handler(200, &path));
    assert_eq!(tree.order(), 1);

    let root = node(&tree, tree.root());
    assert!(root.next.len() == 1);

    let id = test_node_exist(&tree, path);
    test_handler_exist(node(&tree, id), 0, 0, 200);

    assert!(node(&tree, id).next.len() == 0);
}

#[test]
fn tree_catch_all_test() {
    let mut tree = Tree::new();
    let path_star = "*";
    let path_normal = "a/b/c/d";

    tree.register(__handler(200, &path_star));
    tree.register(__handler(201, &path_normal));
    tree.register(__handler(202, &path_star));
    tree.register(__handler(203, &path_normal));
    assert_eq!(tree.order(), 4);

    let ref_node = tree.all();
    assert!(ref_node.handlers.len() == 2);

    test_handler_exist(tree.all(), 0, 0, 200);
    test_handler_exist(tree.all(), 1, 2, 202);
    assert!(ref_node.next.len() == 0);
}

#[test]
fn tree_normal_parameter_fragment_test() {
    let mut tree = Tree::new();
    let path_regular = "a/b/c/d";
    let path_parameterized = "a/b/:xyz/d";

    tree.register(__handler(200, &path_regular));
    tree.register(__handler(201, &path_parameterized));
    tree.register(__handler(202, &path_regular));
    tree.register(__handler(203, &path_parameterized));
    assert_eq!(tree.order(), 4);

    let id = test_node_exist(&tree, "a/b");
    assert!(node(&tree, id).next.len() == 2);

    let id = test_node_exist(&tree, &path_regular);
    test_handler_exist(node(&tree, id), 0, 0, 200);
    test_handler_exist(node(&tree, id), 1, 2, 202);

    let id = test_node_exist(&tree, &path_parameterized);
    test_handler_exist(node(&tree, id), 0, 1, 201);
    test_handler_exist(node(&tree, id), 1, 3, 203);

    let id = parent(&tree, id);
    let node = node(&tree, id);
    assert!(node.parameter.as_ref().is_some());
    assert!(node.parameter.as_ref().unwrap().0 == "xyz");
    assert!(node.parameter.as_ref().unwrap().1.is_empty());
}

#[test]
fn tree_argumentized_parameter_fragment_test() {
    let mut tree = Tree::new();
    let path_regular = "a/b/c/d";
    let path_parameterized = "a/b/:xyz{this_should_be_regex!}/d";

    tree.register(__handler(200, &path_regular));
    tree.register(__handler(201, &path_parameterized));
    tree.register(__handler(202, &path_regular));
    tree.register(__handler(203, &path_parameterized));
    assert_eq!(tree.order(), 4);

    let id = test_node_exist(&tree, "a/b");
    assert!(node(&tree, id).next.len() == 2);

    let id = test_node_exist(&tree, &path_regular);
    test_handler_exist(node(&tree, id), 0, 0, 200);
    test_handler_exist(node(&tree, id), 1, 2, 202);

    let id = test_node_exist(&tree, &path_parameterized);
    test_handler_exist(node(&tree, id), 0, 1, 201);
    test_handler_exist(node(&tree, id), 1, 3, 203);

    let id = parent(&tree, id);
    let node = node(&tree, id);
    assert!(node.parameter.as_ref().is_some());
    assert!(node.parameter.as_ref().unwrap().0 == "xyz");
    assert!(node.parameter.as_ref().unwrap().1 == "this_should_be_regex!");
}

#[test]
fn tree_wildcard_fragment_test() {
    let mut tree = Tree::new();
    let path_wildcard = "a/b/*/d";
    let path_wildcarddddd = "a/b/***********************/d";

    tree.register(__handler(200, &path_wildcard));
    tree.register(__handler(201, &path_wildcarddddd));
    tree.register(__handler(202, &path_wildcard));
    tree.register(__handler(203, &path_wildcarddddd));
    assert_eq!(tree.order(), 4);

    let id = test_node_exist(&tree, "a/b");
    assert!(node(&tree, id).next.len() == 2);

    let id = test_node_exist(&tree, &path_wildcard);
    test_handler_exist(node(&tree, id), 0, 0, 200);
    test_handler_exist(node(&tree, id), 1, 2, 202);

    let id = parent(&tree, id);
    assert!(node(&tree, id).parameter.as_ref().is_none());

    let id = test_node_exist(&tree, &path_wildcarddddd);
    test_handler_exist(node(&tree, id), 0, 1, 201);
    test_handler_exist(node(&tree, id), 1, 3, 203);

    let id = parent(&tree, id);
    assert!(node(&tree, id).parameter.as_ref().is_none());
}

#[test]
fn tree_misconfigured_parameter_fragment_test() {
    let mut tree = Tree::new();
    let path_boundary_test = "a/b/:xyz{this_{{{sho}}{}{}uld_be_{{{regex!}/d";
    let path_missing_opening_boundary = "a/b/:xyz this_should_be_regex}}}}/d";
    let path_missing_closing_boundary = "a/b/:xyz{{{{this_should_be_regex/d";
    let path_empty_param = "a/b/:/d";
    let path_multi_start_token = "a/b/:::::wahaha/d";
    let path_multi_slash = "a/b////////////////////////////c///////////////d";

    tree.register(__handler(200, &path_boundary_test));
    tree.register(__handler(201, &path_missing_opening_boundary));
    tree.register(__handler(202, &path_missing_closing_boundary));
    tree.register(__handler(203, &path_empty_param));
    tree.register(__handler(204, &path_multi_start_token));
    tree.register(__handler(205, &path_multi_slash));

    assert_eq!(tree.order(), 6);

    let id = test_node_exist(&tree, "a/b");
    assert!(node(&tree, id).next.len() == 6);

    let id = test_node_exist(&tree, &path_boundary_test);
    test_handler_exist(node(&tree, id), 0, 0, 200);
    let up = parent(&tree, id);
    let above = node(&tree, up);
    assert!(above.parameter.as_ref().is_some());
    assert!(above.parameter.as_ref().unwrap().0 == "xyz");
    assert!(above.parameter.as_ref().unwrap().1 == "this_{{{sho}}{}{}uld_be_{{{regex!");

    let id = test_node_exist(&tree, &path_missing_opening_boundary);
    test_handler_exist(node(&tree, id), 0, 1, 201);
    let up = parent(&tree, id);
    let above = node(&tree, up);
    assert!(above.parameter.as_ref().is_some());
    assert!(above.parameter.as_ref().unwrap().0 == "xyz this_should_be_regex}}}}");
    assert!(above.parameter.as_ref().unwrap().1.is_empty());

    let id = test_node_exist(&tree, &path_missing_closing_boundary);
    test_handler_exist(node(&tree, id), 0, 2, 202);
    let up = parent(&tree, id);
    let above = node(&tree, up);
    assert!(above.parameter.as_ref().is_some());
    assert!(above.parameter.as_ref().unwrap().0 == "xyz{{{{this_should_be_regex");
    assert!(above.parameter.as_ref().unwrap().1.is_empty());

    let id = test_node_exist(&tree, &path_empty_param);
    test_handler_exist(node(&tree, id), 0, 3, 203);
    let up = parent(&tree, id);
    let above = node(&tree, up);
    assert!(above.parameter.as_ref().is_some());
    assert!(above.parameter.as_ref().unwrap().0.is_empty());
    assert!(above.parameter.as_ref().unwrap().1.is_empty());

    let id = test_node_exist(&tree, &path_multi_start_token);
    test_handler_exist(node(&tree, id), 0, 4, 204);
    let up = parent(&tree, id);
    let above = node(&tree, up);
    assert!(above.parameter.as_ref().is_some());
    assert!(above.parameter.as_ref().unwrap().0 == "::::wahaha");
    assert!(above.parameter.as_ref().unwrap().1.is_empty());

    let id = test_node_exist(&tree, &path_multi_slash);
    test_handler_exist(node(&tree, id), 0, 5, 205);
    let parent_internal = parent(&tree, id);
    let up = test_node_exist(&tree, "a/b/c");
    assert!(up == parent_internal);
    let up = test_node_exist(&tree, "a/b");
    assert!(tree.child(up, "c").is_some());
}

#[test]
fn tree_deep_tree_integrity_test() {
    let mut tree = Tree::new();
    let path_abcd = "a/b/c/:d";
    let path_abxy = "/a/b/:x/y";
    let path_ab = "a/b";
    let path_xyz = "x/*/z";

    tree.register(__handler(200, &path_abcd));
    tree.register(__handler(300, &path_abxy));
    tree.register(__handler(2, &path_ab));
    tree.register(__handler(200, &path_abxy));
    tree.register(__handler(300, &path_abcd));
    tree.register(__handler(999, &path_abxy));
    tree.register(__handler(199, &path_abcd));
    tree.register(__handler(1, &path_xyz));
    tree.register(__handler(2, &path_xyz));

    let ref_node_root = node(&tree, tree.root());
    assert!(ref_node_root.next.len() == 2);

    let node_ab = test_node_exist(&tree, path_ab);
    test_handler_exist(node(&tree, node_ab), 0, 2, 2);

    let ref_node_ab = node(&tree, node_ab);
    assert!(ref_node_ab.next.len() == 2);
    assert!(ref_node_ab.handlers.len() == 1);

    let node_abcd = test_node_exist(&tree, path_abcd);
    test_handler_exist(node(&tree, node_abcd), 0, 0, 200);
    test_handler_exist(node(&tree, node_abcd), 1, 4, 300);
    test_handler_exist(node(&tree, node_abcd), 2, 6, 199);

    let ref_node_abcd = node(&tree, node_abcd);
    assert!(ref_node_abcd.next.len() == 0);
    assert!(ref_node_abcd.handlers.len() == 3);
    assert!(node_ab == parent(&tree, parent(&tree, node_abcd)));

    let node_abxy = test_node_exist(&tree, path_abxy);
    test_handler_exist(node(&tree, node_abxy), 0, 1, 300);
    test_handler_exist(node(&tree, node_abxy), 1, 3, 200);
    test_handler_exist(node(&tree, node_abxy), 2, 5, 999);

    let ref_node_abxy = node(&tree, node_abxy);
    assert!(ref_node_abxy.next.len() == 0);
    assert!(ref_node_abxy.handlers.len() == 3);
    assert!(node_ab == node(&tree, ref_node_abxy.parent.unwrap()).parent.unwrap());

    let node_xyz = test_node_exist(&tree, path_xyz);
    test_handler_exist(node(&tree, node_xyz), 0, 7, 1);
    test_handler_exist(node(&tree, node_xyz), 1, 8, 2);

    let ref_node_xyz = node(&tree, node_xyz);
    assert!(ref_node_xyz.next.len() == 0);
    assert!(ref_node_xyz.handlers.len() == 2);
    assert!(tree.root() == parent(&tree, parent(&tree, parent(&tree, node_xyz))));
}

#[test]
fn tree_one_path_routing_test() {
    let mut tree = Tree::new();
    let path = "a/b/c/d";

    for i in 0..10 {
        tree.register(__handler(i, &path));
    }

    let handlers = tree.handlers(&Method::Get, &path);
    assert!(handlers.len() == 10);

    for i in 0..10 {
        let (h, _param) = handlers.get(i).unwrap();
        test_handler(h, i as u32)
    }
}

#[test]
fn tree_wildcard_routing_test() {
    let mut tree = Tree::new();

    tree.register(__handler(10, "/*/b/c/d"));
    tree.register(__handler(20, "/*/*/c/d"));
    tree.register(__handler(30, "/*/b/*/d"));
    tree.register(__handler(40, "/*/*/*/*"));
    tree.register(__handler(50, "/a/b/c/*"));
    tree.register(__handler(60, "/a/b/c/*"));
    tree.register(__handler(70, "/a/b/c/*"));
    tree.register(__handler(80, "/*/b/c/*"));

    let handlers = tree.handlers(&Method::Get, "a/b/c/d");
    assert!(handlers.len() == 8);

    for i in 0..8 {
        let (h, _param) = handlers.get(i).unwrap();
        test_handler(h, ((i + 1) * 10) as u32)
    }
}

#[test]
fn tree_parameterized_routing_test() {
    let mut tree = Tree::new();

    tree.register(__handler(10, "/:id{regex_goes_BRRRRRR}/b/c/d"));
    tree.register(__handler(20, "/a/:id/c/d"));
    tree.register(__handler(30, "/a/:id{}/:id2{}/d"));
    tree.register(__handler(40, "/:id/:id2{{{{{{{{{{{{{{{{{}}}}}}}}}}}}}}}}}/:id3/:id4"));
    tree.register(__handler(50, "/:id/b/c/:id2"));
    tree.register(__handler(60, "/a/b/c/d"));
    tree.register(__handler(70, "/a/b/c/d"));
    tree.register(__handler(
        80,
        "/a/b/c/:id{{{{{{{{{{{{{{{{{{{XXXXXXXXXXXXXXXXXXXXXXXXXXXXXXXXXXXX]}",
    ));

    let handlers = tree.handlers(&Method::Get, "a/b/c/d");
    assert!(handlers.len() == 8);

    for i in 0..8 {
        let (h, param) = handlers.get(i).unwrap();
        test_handler(h, ((i + 1) * 10) as u32);

        match i {
            0 => assert!(param.clone().as_ref() == &strmap(&[("id", "a")])),
            1 => assert!(param.clone().as_ref() == &strmap(&[("id", "b")])),
            2 => assert!(param.clone().as_ref() == &strmap(&[("id", "b"), ("id2", "c")])),
            3 => assert!(
                param.clone().as_ref()
                    == &strmap(&[("id", "a"), ("id2", "b"), ("id3", "c"), ("id4", "d")])
            ),
            4 => assert!(param.clone().as_ref() == &strmap(&[("id", "a"), ("id2", "d")])),
            5 => assert!(param.clone().as_ref() == &strmap(&[])),
            6 => assert!(param.clone().as_ref() == &strmap(&[])),
            7 => assert!(param.clone().as_ref() == &strmap(&[("id", "d")])),
            _ => assert!(false, "Should be unreachable"),
        }
    }
}

#[test]
fn tree_routing_integrity_test() {
    let mut tree = Tree::new();

    tree.register(__handler(0, "/a/b/c/d"));
    tree.register(__handler(10, "/a/b/:id/d"));
    tree.register(__handler(20, "/a/*/c/d"));
    tree.register(__handler(30, "/a/*/c/d"));
    tree.register(__handler(0, "/*/b/*should_not_match/d"));
    tree.register(__handler(0, "/*/b/*should_not_match/d"));
    tree.register(__handler(0, "/*/b/*should_not_match/d"));
    tree.register(__handler(40, "/*/b/c/d"));
    tree.register(__handler(50, "/*/b/c/d"));
    tree.register(__handler(60, "/*/b/:goes_brrrr}}}}}}}}/d"));
    tree.register(__handler(70, "/a/::huzzah!!{{{{{{{/:hahah{rrrr}/d"));
    tree.register(__handler(80, "/*/*/*/*"));
    tree.register(__handler(90, "/*/b/:hahah{rrrr}/d"));
    tree.register(__handler(100, "/:multiple/:param/:goes{rrrr}/:brrrr"));

    let handlers = tree.handlers(&Method::Get, "/a/b/c/d");

    assert!(handlers.len() == 11);

    for i in 0..11 {
        let (h, param) = handlers.get(i).unwrap();
        test_handler(h, (i * 10) as u32);

        match i {
            0 => assert!(param.clone().as_ref() == &strmap(&[])),
            1 => assert!(param.clone().as_ref() == &strmap(&[("id", "c")])),
            2 => assert!(param.clone().as_ref() == &strmap(&[])),
            3 => assert!(param.clone().as_ref() == &strmap(&[])),
            4 => assert!(param.clone().as_ref() == &strmap(&[])),
            5 => assert!(param.clone().as_ref() == &strmap(&[])),
            6 => assert!(param.clone().as_ref() == &strmap(&[("goes_brrrr}}}}}}}}", "c")])),
            7 => assert!(
                param.clone().as_ref() == &strmap(&[(":huzzah!!{{{{{{{", "b"), ("hahah", "c")])
            ),
            8 => assert!(param.clone().as_ref() == &strmap(&[])),
            9 => assert!(param.clone().as_ref() == &strmap(&[("hahah", "c")])),
            10 => assert!(
                param.clone().as_ref()
                    == &strmap(&[
                        ("multiple", "a"),
                        ("param", "b"),
                        ("goes", "c"),
                        ("brrrr", "d"),
                    ])
            ),
            _ => assert!(false, "Should be unreachable"),
        }
    }
}

#[test]
fn tree_hook_priority_test() {
    let _tree: Tree<Status> = Tree::new();
}
