//! Errors, credentials, listings, messages and the graph of a repository.
use rust_nn::data::delimiter_of;
use rust_nn::distributed::{Message, MessageType};
use rust_nn::error::{from_io, RustNnError};
use rust_nn::gpu_kernels::{
    active_backend, cuda_markers, detect_backend, extract_kernels, kernel_source, rocm_markers,
    set_backend, GpuBackendKind, TileConfig, AMD_HIP_KERNEL, APPLE_MSL_KERNEL, NVIDIA_PTX_KERNEL,
};
use rust_nn::gui::ModelDashboard;
use rust_nn::hub::{
    base64_encode, bearer, cache_name, download_url, format_listings, kaggle_header,
    parse_listings, rows_url, search_url, Credentials, DatasetListing, Hub,
};
use rust_nn::interactive::{command_of, handle_tensor, Command, TensorReply};
use rust_nn::json::{parse_simple_json_object, split_json_objects};
use rust_nn::repo_graph::{
    parse_rust_file, FileNode, RepoGraph, StructureEdge, StructureEdgeType,
};

#[test]
fn shape_mismatch_display() {
    let e = RustNnError::shape_mismatch("matmul", &[2, 3], &[4, 5], "A's columns must equal B's rows");
    let s = e.message();
    assert!(s.contains("matmul"));
    assert!(s.contains("shape mismatch"));
}

#[test]
fn invalid_ndims_display() {
    let e = RustNnError::invalid_ndims("layer_norm", 2, 1);
    assert!(e.message().contains("expected 2 dimensions"));
}

#[test]
fn error_is_std_error() {
    let e = RustNnError::EmptyTensor { op: "test" };
    assert!(e.message().contains("empty"));
}

#[test]
fn io_failures_keep_their_text() {
    assert!(from_io("load", "no such file").message().contains("no such file"));
}

#[test]
fn base64_encoding() {
    assert_eq!(base64_encode("user:pass"), "dXNlcjpwYXNz");
    assert_eq!(base64_encode("a"), "YQ==");
    assert_eq!(base64_encode("ab"), "YWI=");
    assert_eq!(base64_encode("abc"), "YWJj");
}

#[test]
fn credentials_builder() {
    let c = Credentials::new().with_hf_token("hf_test123").with_kaggle("user", "key456");
    assert!(c.has_hf());
    assert!(c.has_kaggle());
}

#[test]
fn credentials_empty() {
    let c = Credentials::new();
    assert!(!c.has_hf());
    assert!(!c.has_kaggle());
}

#[test]
fn credentials_come_back_from_what_was_saved() {
    let c = Credentials::new().with_hf_token("hf_x").with_kaggle("user", "k=1");
    let text = c.save_text();
    let back = Credentials::new().absorb(&text);
    assert_eq!(back.hf_token, Some("hf_x".to_string()));
    assert_eq!(back.kaggle_username, Some("user".to_string()));
    assert_eq!(back.kaggle_key, Some("k=1".to_string()));
    let own = Credentials::new().with_hf_token("own").absorb(&text);
    assert_eq!(own.hf_token, Some("own".to_string()));
}

#[test]
fn headers_and_addresses() {
    assert_eq!(bearer("t"), "Bearer t");
    let c = Credentials::new().with_kaggle("user", "pass");
    assert_eq!(kaggle_header(&c, "a", "b").unwrap(), "Basic dXNlcjpwYXNz");
    assert_eq!(kaggle_header(&Credentials::new(), "a", "b").unwrap_err(), "a");
    assert!(search_url(Hub::HuggingFace, "cats", 5).contains("search=cats&limit=5"));
    assert!(download_url("a/b").contains("a/b"));
    assert!(rows_url("a/b", "train", 100, 50).contains("offset=100"));
    assert!(!cache_name("a/b", "train", 10).contains('/'));
}

#[test]
fn format_listings_display() {
    let listings = vec![DatasetListing {
        id: "test/ds1".into(),
        description: "Test dataset".into(),
        downloads: 42,
        tags: vec![],
    }];
    let formatted = format_listings(&listings);
    assert!(formatted.contains("test/ds1"));
    assert!(formatted.contains("42"));
}

#[test]
fn listings_are_read() {
    let body = r#"[{"id":"a/b","downloads":7,"description":"x"},{"downloads":1},{"id":"c/d"}]"#;
    let l = parse_listings(Hub::HuggingFace, body, 10);
    assert_eq!(l.len(), 2);
    assert_eq!(l[0].id, "a/b");
    assert_eq!(l[0].downloads, 7);
    assert_eq!(l[1].id, "c/d");
    assert_eq!(parse_listings(Hub::HuggingFace, body, 1).len(), 1);
    assert_eq!(format_listings(&[]), "No datasets found.");
}

#[test]
fn simple_json_parser() {
    let pairs = parse_simple_json_object(r#"{"text":"hello world","label":1}"#);
    assert_eq!(pairs.len(), 2);
    assert_eq!(pairs[0].0, "text");
    assert_eq!(pairs[0].1, "hello world");
    assert_eq!(pairs[1].0, "label");
    assert_eq!(pairs[1].1, "1");
}

#[test]
fn split_json_objects_basic() {
    let json = r#"[{"id":"a","x":1},{"id":"b","x":2}]"#;
    let inner = json.trim().strip_prefix('[').and_then(|s| s.strip_suffix(']')).unwrap();
    let objs = split_json_objects(inner);
    assert_eq!(objs.len(), 2);
    assert!(objs[0].contains("\"a\""));
}

#[test]
fn message_barrier() {
    let msg = Message::barrier();
    let bytes = msg.serialize();
    assert_eq!(bytes.len(), 5);
    let decoded = Message::deserialize(&bytes).unwrap();
    assert_eq!(decoded.msg_type, MessageType::Barrier);
    assert!(decoded.payload.is_empty());
}

#[test]
fn message_invalid_type_rejected() {
    let bad = vec![99, 0, 0, 0, 0];
    assert!(Message::deserialize(&bad).is_none());
}

#[test]
fn model_html() {
    let d = ModelDashboard::new("MLP")
        .layer("Linear", 10, 20, "he")
        .layer("ReLU", 20, 20, "")
        .layer("Linear", 20, 5, "he");
    let h = d.render();
    assert!(h.contains("<html") && h.contains("Linear") && h.contains("Parameters"));
}

#[test]
fn repo_graph_context() {
    let mut graph = RepoGraph::new();
    graph.add_file(FileNode {
        path: "src/main.rs".into(),
        imports: vec!["src/lib.rs".into()],
        exports: vec!["main".into()],
        dependencies: vec![],
    });
    graph.add_file(FileNode {
        path: "src/lib.rs".into(),
        imports: vec![],
        exports: vec!["add".into(), "subtract".into()],
        dependencies: vec!["ndarray".into()],
    });

    let ctx = graph.context_for_file("src/main.rs");
    assert!(ctx.contains(&"add".to_string()));
    assert!(ctx.contains(&"subtract".to_string()));
}

#[test]
fn context_holds_the_file_and_its_neighbours() {
    let mut graph = RepoGraph::new();
    for (path, imports, exports) in [
        ("a.rs", vec!["b.rs", "c.rs"], vec!["f"]),
        ("b.rs", vec![], vec!["g", "h"]),
        ("d.rs", vec!["a.rs"], vec!["k"]),
        ("e.rs", vec!["b.rs"], vec!["m"]),
    ] {
        graph.add_file(FileNode {
            path: path.into(),
            imports: imports.into_iter().map(String::from).collect(),
            exports: exports.into_iter().map(String::from).collect(),
            dependencies: vec![],
        });
    }
    assert_eq!(graph.context_for_file("a.rs"), vec!["a.rs", "b.rs", "c.rs", "g", "h", "k"]);
    assert_eq!(graph.context_for_file("b.rs"), vec!["b.rs", "f", "m"]);
    assert_eq!(graph.context_for_file("c.rs"), vec!["f"]);
}

#[test]
fn repo_graph_dependencies() {
    let mut graph = RepoGraph::new();
    graph.add_file(FileNode {
        path: "src/a.rs".into(),
        imports: vec!["src/b.rs".into(), "src/c.rs".into()],
        exports: vec!["func_a".into()],
        dependencies: vec![],
    });

    let deps = graph.dependencies("src/a.rs");
    assert_eq!(deps.len(), 2);
}

#[test]
fn repo_graph_called_functions() {
    let mut graph = RepoGraph::new();
    graph.add_edge(StructureEdge {
        from: "func_a".into(),
        to: "func_b".into(),
        edge_type: StructureEdgeType::Calls,
    });
    graph.add_edge(StructureEdge {
        from: "func_a".into(),
        to: "func_c".into(),
        edge_type: StructureEdgeType::Calls,
    });
    graph.add_edge(StructureEdge {
        from: "func_b".into(),
        to: "func_d".into(),
        edge_type: StructureEdgeType::Calls,
    });

    let called = graph.called_functions("func_a");
    assert_eq!(called.len(), 2);
    assert!(called.iter().any(|s| s.as_str() == "func_b"));
    assert!(called.iter().any(|s| s.as_str() == "func_c"));
}

#[test]
fn parse_rust_file_extracts_exports() {
    let source = r#"
use crate::lib::helper;

pub fn calculate(x: i32) -> i32 { x * 2 }
pub struct Config { name: String }
fn private_helper() {}
"#;
    let node = parse_rust_file("src/calc.rs", source);
    assert!(node.exports.contains(&"calculate".to_string()));
    assert!(node.exports.contains(&"Config".to_string()));
    assert!(!node.exports.contains(&"private_helper".to_string()));
    assert!(
        node.dependencies.contains(&"crate".to_string())
            || node.imports.contains(&"src/lib.rs".to_string())
    );
}

#[test]
fn repo_graph_summary() {
    let mut graph = RepoGraph::new();
    graph.add_file(FileNode {
        path: "a.rs".into(),
        imports: vec![],
        exports: vec!["f".into()],
        dependencies: vec![],
    });
    graph.add_edge(StructureEdge {
        from: "f".into(),
        to: "g".into(),
        edge_type: StructureEdgeType::Calls,
    });
    let s = graph.summary();
    assert!(s.contains("1 files"));
    assert!(s.contains("1 structural edges"));
}

#[test]
fn detect_backend_returns_valid() {
    assert_eq!(cuda_markers().len(), 3);
    assert_eq!(rocm_markers().len(), 3);
    let backend = detect_backend(&[false, false, false], &[false, true, false], false, false);
    assert_eq!(backend.name(), "AMD ROCm (HIP)");
    assert_eq!(detect_backend(&[true], &[true], true, true), GpuBackendKind::Nvidia);
    assert_eq!(detect_backend(&[], &[], true, true), GpuBackendKind::Apple);
    assert_eq!(detect_backend(&[], &[], false, true), GpuBackendKind::WebGpu);
    assert_eq!(detect_backend(&[], &[], false, false), GpuBackendKind::Cpu);
}

#[test]
fn tile_config_nvidia() {
    let cfg = TileConfig::nvidia();
    assert!(cfg.bm >= 64);
    assert!(cfg.bn >= 64);
    assert!(cfg.warp_size == 32);
    assert!(cfg.shared_mem_bytes() > 0);
    assert_eq!(cfg.shared_mem_bytes(), 32768);
}

#[test]
fn tile_config_amd() {
    let cfg = TileConfig::amd();
    assert_eq!(cfg.warp_size, 64);
    assert!(cfg.bk >= 32);
}

#[test]
fn tile_config_apple() {
    let cfg = TileConfig::apple();
    assert!(cfg.bm >= 32);
    assert!(cfg.bk >= 8);
}

#[test]
fn nvidia_ptx_contains_key_instructions() {
    assert!(NVIDIA_PTX_KERNEL.contains("fma.rn.f32"), "PTX should use FMA");
    assert!(NVIDIA_PTX_KERNEL.contains("bar.sync"), "PTX should synchronize");
    assert!(NVIDIA_PTX_KERNEL.contains(".shared"), "PTX should use shared memory");
    assert!(NVIDIA_PTX_KERNEL.contains("ld.global.f32"), "PTX should load from global");
    assert!(NVIDIA_PTX_KERNEL.contains("st.shared.f32"), "PTX should store to shared");
}

#[test]
fn apple_msl_contains_simdgroup_ops() {
    assert!(APPLE_MSL_KERNEL.contains("simdgroup_float8x8"), "MSL should use simdgroup matrices");
    assert!(
        APPLE_MSL_KERNEL.contains("simdgroup_multiply_accumulate"),
        "MSL should use simdgroup MMA"
    );
    assert!(APPLE_MSL_KERNEL.contains("threadgroup"), "MSL should use threadgroup memory");
    assert!(APPLE_MSL_KERNEL.contains("threadgroup_barrier"), "MSL should synchronize");
    assert!(APPLE_MSL_KERNEL.contains("simdgroup_async_copy"), "MSL should use async copy");
}

#[test]
fn amd_hip_contains_lds_and_mfma() {
    assert!(AMD_HIP_KERNEL.contains("__shared__"), "HIP should use shared memory (LDS)");
    assert!(AMD_HIP_KERNEL.contains("__syncthreads"), "HIP should synchronize");
    assert!(AMD_HIP_KERNEL.contains("PAD"), "HIP should pad to avoid bank conflicts");
    assert!(AMD_HIP_KERNEL.contains("MFMA"), "HIP should reference MFMA instructions");
}

#[test]
fn kernel_source_for_each_backend() {
    let nvidia = kernel_source(GpuBackendKind::Nvidia);
    assert!(!nvidia.is_empty());
    let apple = kernel_source(GpuBackendKind::Apple);
    assert!(!apple.is_empty());
    let amd = kernel_source(GpuBackendKind::Amd);
    assert!(!amd.is_empty());
    assert!(kernel_source(GpuBackendKind::Cpu).contains("No platform-specific kernel"));
}

#[test]
fn extract_kernels_to_files() {
    let files = extract_kernels("/tmp/rust_nn_kernels");
    assert_eq!(files.len(), 3);
    assert_eq!(files[0].0, "/tmp/rust_nn_kernels/sgemm.ptx");
    for (path, content) in &files {
        assert!(!content.is_empty(), "Kernel file {path} should not be empty");
    }
}

#[test]
fn active_backend_cached() {
    let mut settled = None;
    let b1 = active_backend(&mut settled, GpuBackendKind::Amd);
    let b2 = active_backend(&mut settled, GpuBackendKind::Nvidia);
    assert_eq!(b1, b2, "active_backend should be consistent (cached)");
}

#[test]
fn backend_is_overridden() {
    let mut settled = None;
    assert_eq!(active_backend(&mut settled, GpuBackendKind::Amd), GpuBackendKind::Amd);
    set_backend(&mut settled, GpuBackendKind::Cpu);
    assert_eq!(active_backend(&mut settled, GpuBackendKind::Nvidia), GpuBackendKind::Cpu);
    assert_eq!(active_backend(&mut settled, GpuBackendKind::Amd), GpuBackendKind::Cpu);
}

#[test]
fn has_gpu_or_fallback() {
    let mut looked = None;
    let first = rust_nn::gpu::has_gpu(&mut looked, false);
    assert!(!first);
    assert_eq!(rust_nn::gpu::has_gpu(&mut looked, true), first);
}

#[test]
fn commands_are_told_apart() {
    let (c, args) = command_of("tensor zeros 2 x 3");
    assert!(matches!(c, Command::TensorWords));
    match handle_tensor(&args) {
        TensorReply::Zeros(d) => assert_eq!(d, vec![2, 3]),
        _ => panic!("zeros were asked for"),
    }
    assert!(matches!(command_of("q").0, Command::Quit));
    assert!(matches!(command_of("   ").0, Command::Nothing));
    match command_of("fly away").0 {
        Command::Unknown(t) => {
            assert_eq!(t, "Unknown command: 'fly'. Type 'help' for available commands.")
        }
        _ => panic!("there is no such command"),
    }
}

#[test]
fn kaggle_files_hold_the_missing_half() {
    let text = r#"{"username":"ann","key":"k-1","other":"x"}"#;
    let both = Credentials::new().absorb_kaggle_json(text);
    assert_eq!(both.kaggle_username.as_deref(), Some("ann"));
    assert_eq!(both.kaggle_key.as_deref(), Some("k-1"));
    let mine = Credentials::new().with_kaggle("me", "mine").absorb_kaggle_json(text);
    assert_eq!(mine.kaggle_username.as_deref(), Some("me"));
    assert_eq!(mine.kaggle_key.as_deref(), Some("mine"));
    assert!(!Credentials::new().absorb_kaggle_json("{").has_kaggle());
}

#[test]
fn the_name_of_a_file_tells_its_delimiter() {
    assert_eq!(delimiter_of("a/b.csv"), ',');
    assert_eq!(delimiter_of("a/b.tsv"), '\t');
    assert_eq!(delimiter_of("tsv"), ',');
}

#[test]
fn colons_in_names_belong_to_them() {
    let pairs = parse_simple_json_object(r#"{"a:b":1,"c\"d:e":"f:g"}"#);
    assert_eq!(pairs[0], ("a:b".to_string(), "1".to_string()));
    assert_eq!(pairs[1], ("c\\\"d:e".to_string(), "f:g".to_string()));
}

#[test]
fn braces_in_texts_do_not_count() {
    let objects = split_json_objects(r#"{"a":"}"},{"b":1}"#);
    assert_eq!(objects, vec![r#"{"a":"}"}"#.to_string(), r#"{"b":1}"#.to_string()]);
    let objects = split_json_objects(r#"{"a":"\"{"},{"b":{"c":2}}"#);
    assert_eq!(objects.len(), 2);
    let rows = rust_nn::json::extract_rows_from_hf_json(
        r#"{"rows":[{"row":{"t":"a } b"}},{"row":{"t":"c"}}]}"#,
    );
    assert_eq!(rows.len(), 2);
    assert_eq!(rows[0].get("t").unwrap(), "a } b");
}

#[test]
fn names_of_functions_come_after_fn() {
    let node = parse_rust_file("src/net.rs", "pub async fn fetch(url: &str) {}");
    assert_eq!(node.exports, vec!["fetch".to_string()]);
    let node = parse_rust_file("src/a.rs", "use serde;\npub fn pick<T>(x: T) {}\npub async fn go() {}");
    assert_eq!(node.exports, vec!["pick".to_string(), "go".to_string()]);
    assert_eq!(node.dependencies, vec!["serde".to_string()]);
}
