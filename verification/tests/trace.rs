//! Observed loads.

use elf_anatomy::closure_report::report_trace;
use elf_anatomy::observed::{gdb_script, narration, parse_maps, snapshots, MapRow, Trace};
use elf_anatomy::trace::{parse_ld_debug, Phase, StepKind, TraceError};
use elf_anatomy::trace_json::to_json;

/// A trimmed capture from glibc 2.42. Kept verbatim: the format is undocumented and
/// unstable, and a paraphrase would test the paraphrase.
const SAMPLE: &str = r#"
     36502:	file=libc.so.6 [0];  needed by ./hello-dyn [0]
     36502:	find library=libc.so.6 [0]; searching
     36502:	 search cache=/etc/ld.so.cache
     36502:	  trying file=/usr/lib/x86_64-linux-gnu/libc.so.6
     36502:	
     36502:	file=libc.so.6 [0];  generating link map
     36502:	  dynamic: 0x00007f4fc19f7940  base: 0x00007f4fc180f000   size: 0x00000000001f7e50
     36502:	    entry: 0x00007f4fc1839130  phdr: 0x00007f4fc180f040  phnum:                 15
     36502:	
     36502:	Initial object scopes
     36502:	object=./hello-dyn [0]
     36502:	 scope 0: ./hello-dyn /usr/lib/x86_64-linux-gnu/libc.so.6 /lib64/ld-linux-x86-64.so.2
     36502:	
     36502:	relocation processing: /usr/lib/x86_64-linux-gnu/libc.so.6
     36502:	binding file ./hello-dyn [0] to /usr/lib/x86_64-linux-gnu/libc.so.6 [0]: normal symbol `fputs' [GLIBC_2.2.5]
     36502:	relocation processing: ./hello-dyn
     36502:	calling init: /lib64/ld-linux-x86-64.so.2
     36502:	calling init: /usr/lib/x86_64-linux-gnu/libc.so.6
     36502:	initialize program: ./hello-dyn
     36502:	transferring control: ./hello-dyn
"#;

#[test]
fn dependency_resolution_is_recovered() {
    let steps = parse_ld_debug(SAMPLE);
    let needed = steps.iter().find_map(|s| match &s.kind {
        StepKind::Needed { file, needed_by } => Some((file.clone(), needed_by.clone())),
        _ => None,
    });
    assert_eq!(
        needed,
        Some(("libc.so.6".to_owned(), "./hello-dyn".to_owned()))
    );

    let search = steps.iter().find_map(|s| match &s.kind {
        StepKind::Search { library, tried } => Some((library.clone(), tried.clone())),
        _ => None,
    });
    let (lib, tried) = search.expect("a search step");
    assert_eq!(lib, "libc.so.6");
    // The cache is consulted before the filesystem, and the order is the point.
    assert!(tried[0].contains("ld.so.cache"));
    assert!(tried[1].ends_with("libc.so.6"));
}

#[test]
fn the_link_map_carries_base_and_entry() {
    let steps = parse_ld_debug(SAMPLE);
    let map = steps.iter().find_map(|s| match &s.kind {
        StepKind::LinkMap {
            base, entry, phnum, ..
        } => Some((*base, *entry, *phnum)),
        _ => None,
    });
    assert_eq!(
        map,
        Some((0x0000_7f4f_c180_f000, 0x0000_7f4f_c183_9130, 15))
    );
}

#[test]
fn relocation_comes_before_init_and_dependencies_come_first() {
    let trace = Trace {
        steps: parse_ld_debug(SAMPLE),
        ..Trace::default()
    };
    assert_eq!(
        trace.relocation_order(),
        vec!["/usr/lib/x86_64-linux-gnu/libc.so.6", "./hello-dyn"]
    );
    assert_eq!(
        trace.init_order(),
        vec![
            "/lib64/ld-linux-x86-64.so.2",
            "/usr/lib/x86_64-linux-gnu/libc.so.6",
            "./hello-dyn"
        ]
    );
    // The program is relocated before anything is initialised.
    let last_reloc = trace
        .steps
        .iter()
        .rposition(|s| matches!(s.kind, StepKind::Relocate { .. }))
        .expect("a relocate step");
    let first_init = trace
        .steps
        .iter()
        .position(|s| matches!(s.kind, StepKind::Init { .. }))
        .expect("an init step");
    assert!(last_reloc < first_init);
}

#[test]
fn a_soname_and_its_resolved_path_are_one_object() {
    let trace = Trace {
        steps: parse_ld_debug(SAMPLE),
        ..Trace::default()
    };
    assert_eq!(
        trace.canonical("libc.so.6"),
        "/usr/lib/x86_64-linux-gnu/libc.so.6"
    );
    let objects = trace.objects();
    assert_eq!(
        objects.iter().filter(|o| o.contains("libc.so.6")).count(),
        1,
        "libc listed twice: {objects:?}"
    );
    // The ld.so.cache line is not a candidate path.
    assert!(!trace.canonical("libc.so.6").contains("cache"));
}

#[test]
fn the_executable_and_the_loader_appear_despite_having_no_link_map() {
    let trace = Trace {
        steps: parse_ld_debug(SAMPLE),
        ..Trace::default()
    };
    let objects = trace.objects();
    assert!(objects.iter().any(|o| o.ends_with("hello-dyn")));
    assert!(objects.iter().any(|o| o.contains("libc.so.6")));
    assert!(objects.iter().any(|o| o.contains("ld-linux")));
}

#[test]
fn symbol_binding_records_both_ends() {
    let steps = parse_ld_debug(SAMPLE);
    let bind = steps.iter().find_map(|s| match &s.kind {
        StepKind::Bind { from, to, symbol } => Some((from.clone(), to.clone(), symbol.clone())),
        _ => None,
    });
    assert_eq!(
        bind,
        Some((
            "./hello-dyn".to_owned(),
            "/usr/lib/x86_64-linux-gnu/libc.so.6".to_owned(),
            "fputs".to_owned()
        ))
    );
}

#[test]
fn gdb_mapping_tables_parse() {
    let text = "\
          0x555555554000     0x555555555000     0x1000        0x0  r--p   /tmp/hello
          0x555555557000     0x555555559000     0x2000     0x2000  rw-p   /tmp/hello
        Mapped address spaces:";
    let rows = parse_maps(text);
    assert_eq!(rows.len(), 2);
    assert_eq!(rows[1].offset, 0x2000);
    assert_eq!(rows[1].perms, "rw-p");
    // Both bottom rows share a file offset in a real capture; that is the
    // double-mapping the memory model reports.
    assert_eq!(rows[0].path, "/tmp/hello");
}

#[test]
fn json_is_escaped_and_shaped() {
    let trace = Trace {
        target: "a\"weird\\name".to_owned(),
        steps: parse_ld_debug(SAMPLE),
        maps_at_interp: vec![MapRow {
            start: 0x1000,
            end: 0x2000,
            offset: 0,
            perms: "r--p".to_owned(),
            path: "/tmp/x".to_owned(),
        }],
        maps_at_entry: Vec::new(),
    };
    let json = to_json(&trace);
    assert!(json.starts_with("{\"schema\":1"));
    assert!(json.contains(r#"a\"weird\\name"#));
    assert!(json.contains(r#""kind":"transfer-control""#));
    assert!(json.contains(r#""counts":{"#));
}

fn observed() -> Trace {
    Trace {
        target: "./hello-dyn".to_owned(),
        steps: parse_ld_debug(SAMPLE),
        ..Trace::default()
    }
}

#[test]
fn steps_are_numbered_in_order() {
    let steps = parse_ld_debug(SAMPLE);
    for (i, s) in steps.iter().enumerate() {
        assert_eq!(s.n, i as u32);
    }
    let tags: Vec<&str> = steps.iter().map(|s| s.kind.tag()).collect();
    assert_eq!(
        tags,
        vec![
            "needed", "search", "link-map", "scope", "relocate", "bind", "relocate", "init",
            "init", "initialize-program", "transfer-control"
        ]
    );
    assert_eq!(steps[0].kind.phase(), Phase::Resolve);
    assert_eq!(steps[2].kind.phase().as_str(), "map");
}

#[test]
fn the_scope_lists_objects_in_lookup_order() {
    let steps = parse_ld_debug(SAMPLE);
    let scope = steps.iter().find_map(|s| match &s.kind {
        StepKind::Scope { object, order } => Some((object.clone(), order.clone())),
        _ => None,
    });
    let (object, order) = scope.expect("a scope step");
    assert_eq!(object, "./hello-dyn");
    assert_eq!(
        order,
        vec![
            "./hello-dyn",
            "/usr/lib/x86_64-linux-gnu/libc.so.6",
            "/lib64/ld-linux-x86-64.so.2"
        ]
    );
}

#[test]
fn the_mark_of_lazy_binding_is_not_part_of_the_name() {
    let text = "  1:\trelocation processing: /lib/libc.so.6\n  1:\trelocation processing: ./lazy (lazy)\n";
    let trace = Trace {
        steps: parse_ld_debug(text),
        ..Trace::default()
    };
    assert_eq!(trace.relocation_order(), vec!["/lib/libc.so.6", "./lazy"]);
    assert_eq!(trace.binds_lazily("lazy"), Some(true));
    assert_eq!(trace.binds_lazily("libc.so.6"), Some(false));
    assert_eq!(trace.binds_lazily("nothing"), None);
}

#[test]
fn unrecognised_lines_are_skipped() {
    assert!(parse_ld_debug("  1:\tsymbol=fputs;  lookup in file=./hello-dyn [0]\n").is_empty());
    assert!(parse_ld_debug("").is_empty());
}

#[test]
fn a_skipped_line_changes_nothing() {
    let noise = "     36502:\tsymbol=fputs;  lookup in file=./hello-dyn [0]\n";
    let mut noisy = String::new();
    for line in SAMPLE.lines() {
        noisy.push_str(line);
        noisy.push('\n');
        noisy.push_str(noise);
    }
    assert_eq!(parse_ld_debug(&noisy), parse_ld_debug(SAMPLE));
}

#[test]
fn steps_are_only_added() {
    let lines: Vec<&str> = SAMPLE.lines().collect();
    let whole = parse_ld_debug(SAMPLE);
    for n in 0..lines.len() {
        let part = parse_ld_debug(&lines[..n].join("\n"));
        // What is under way at the cut is completed early, so the last step may differ.
        let settled = part.len().saturating_sub(1);
        assert_eq!(part[..settled], whole[..settled]);
    }
}

#[test]
fn binds_are_counted_and_attributed() {
    let t = observed();
    assert_eq!(t.bind_count(), 1);
    assert_eq!(t.bound_symbols("hello-dyn"), vec!["fputs"]);
    assert!(t.bound_symbols("libc.so.6").is_empty());
}

#[test]
fn the_last_search_wins() {
    let text = "1:\tfind library=b.so [0]; searching\n1:\t  trying file=/x/b.so\n1:\t\n\
                1:\tfind library=a.so [0]; searching\n1:\t  trying file=/y/a.so\n1:\t\n\
                1:\tfind library=b.so [0]; searching\n1:\t  trying file=/z/b.so\n1:\t\n\
                1:\tfind library=c.so [0]; searching\n1:\t search cache=/etc/ld.so.cache\n1:\t\n";
    let t = Trace {
        steps: parse_ld_debug(text),
        ..Trace::default()
    };
    let pair = |a: &str, b: &str| (a.to_owned(), b.to_owned());
    // By name, whatever the order of the searches.
    assert_eq!(t.aliases(), vec![pair("a.so", "/y/a.so"), pair("b.so", "/z/b.so")]);
    assert_eq!(t.resolved("c.so"), None);
    assert_eq!(t.canonical("c.so"), "c.so");
}

#[test]
fn an_object_is_listed_once() {
    let objects = observed().objects();
    assert_eq!(
        objects,
        vec![
            "./hello-dyn",
            "/usr/lib/x86_64-linux-gnu/libc.so.6",
            "/lib64/ld-linux-x86-64.so.2"
        ]
    );
}

#[test]
fn a_mapping_without_a_path_is_anonymous() {
    let rows = parse_maps("0x1000 0x2000 0x1000 0x0 rw-p\n0x1 0x2 0x3 0x4 xyz\n0xg 0x2 0x3 0x4 r--p\n 0x2000 0x3000 0x1000 0x0 r--p /a b\n");
    assert_eq!(rows.len(), 2);
    assert_eq!(rows[0].path, "");
    assert_eq!(rows[1].path, "/a b");
}

#[test]
fn control_characters_are_escaped() {
    let t = Trace {
        target: "a\u{1}b\tc\nd".to_owned(),
        ..Trace::default()
    };
    assert_eq!(
        to_json(&t),
        "{\"schema\":1,\"target\":\"a\\u0001b\\tc\\nd\",\"steps\":[],\"objects\":[],\"aliases\":{},\
         \"maps_at_interp\":[],\"maps_at_entry\":[],\"counts\":{}}\n"
    );
}

#[test]
fn counts_are_by_kind_in_order() {
    let json = to_json(&observed());
    assert!(json.ends_with(
        "\"counts\":{\"bind\":1,\"init\":2,\"initialize-program\":1,\"link-map\":1,\"needed\":1,\
         \"relocate\":2,\"scope\":1,\"search\":1,\"transfer-control\":1}}\n"
    ));
    assert!(json.contains(
        r#"{"n":5,"phase":"relocate","kind":"bind","from":"./hello-dyn","to":"/usr/lib/x86_64-linux-gnu/libc.so.6","symbol":"fputs"}"#
    ));
    assert!(json.contains(r#""aliases":{"libc.so.6":"/usr/lib/x86_64-linux-gnu/libc.so.6"}"#));
}

#[test]
fn silence_is_an_error() {
    let e = narration(" \n\t".to_owned()).unwrap_err();
    assert_eq!(
        e.to_text(),
        "LD_DEBUG (is this a static binary?) produced no usable output"
    );
    assert_eq!(narration("x".to_owned()), Ok("x".to_owned()));
    let spawn = TraceError::Spawn {
        what: "gdb",
        detail: "not found".to_owned(),
    };
    assert_eq!(spawn.to_text(), "could not run gdb: not found");
}

#[test]
fn snapshots_are_cut_apart() {
    let text = "noise\n===ELFA_SNAP_A===\n0x1000 0x2000 0x1000 0x0 r--p /a\n===ELFA_SNAP_B===\n0x3000 0x4000 0x1000 0x0 rw-p /b\n";
    let (a, b) = snapshots(text).unwrap();
    assert_eq!((a.len(), a[0].start, b.len(), b[0].start), (1, 0x1000, 1, 0x3000));
    assert_eq!(
        snapshots("===ELFA_SNAP_A===\n"),
        Err(TraceError::NoOutput { what: "gdb" })
    );
    assert_eq!(snapshots(""), Err(TraceError::NoOutput { what: "gdb" }));
}

#[test]
fn a_file_name_cannot_leave_its_string() {
    let s = gdb_script("he\"l\\lo", 0x1040, true);
    assert!(s.contains("f[5].endswith(\"hello\")"));
    assert!(s.contains("if True:\n"));
    assert!(s.contains("(base + 4160)"));
    assert!(gdb_script("x", 0, false).contains("if False:\n"));
}

#[test]
fn a_trace_reads_as_a_story() {
    let text = report_trace(&observed());
    assert!(text.starts_with("./hello-dyn  11 steps observed\n\n  objects, in the order the loader met them\n    ./hello-dyn\n"));
    assert!(text.contains("\n  initialiser order — program last\n    /lib64/ld-linux-x86-64.so.2\n"));
    assert!(text.contains("\n  search for libc.so.6\n    search cache=/etc/ld.so.cache\n"));
    assert!(text.ends_with(
        "\n  1 symbols bound before the program ran\n  mappings: 0 at the interpreter's first instruction, 0 at the program's entry\n\n"
    ));
}
