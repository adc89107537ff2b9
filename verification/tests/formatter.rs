#![allow(clippy::needless_update)]

use grafeo::cli::formatter::{
    format_bytes, format_memory, BufferManagerMemory, CacheMemory, CdcMemory, IndexMemory,
    MemoryUsage, MvccMemory, NamedMemory, RdfMemory, StoreMemory, StringPoolMemory,
};

#[test]
fn test_format_bytes_bytes() {
    assert_eq!(format_bytes(0), "0 bytes");
    assert_eq!(format_bytes(1), "1 bytes");
    assert_eq!(format_bytes(512), "512 bytes");
    assert_eq!(format_bytes(1023), "1023 bytes");
}

#[test]
fn test_format_bytes_kilobytes() {
    assert_eq!(format_bytes(1024), "1.00 KB");
    assert_eq!(format_bytes(1536), "1.50 KB");
    assert_eq!(format_bytes(10240), "10.00 KB");
    assert_eq!(format_bytes(1024 * 1024 - 1), "1024.00 KB");
}

#[test]
fn test_format_bytes_megabytes() {
    assert_eq!(format_bytes(1024 * 1024), "1.00 MB");
    assert_eq!(format_bytes(1024 * 1024 * 5), "5.00 MB");
    assert_eq!(format_bytes(1024 * 1024 * 100), "100.00 MB");
}

#[test]
fn test_format_bytes_gigabytes() {
    assert_eq!(format_bytes(1024 * 1024 * 1024), "1.00 GB");
    assert_eq!(format_bytes(1024 * 1024 * 1024 * 2), "2.00 GB");
    assert_eq!(
        format_bytes(1024 * 1024 * 1024 + 512 * 1024 * 1024),
        "1.50 GB"
    );
}

fn render(usage: &MemoryUsage) -> String {
    format_memory(usage)
}

/// An average depth as the report takes it.
fn depth(average: f64) -> Option<String> {
    if average > 0.0 {
        Some(format!("{average:.2}"))
    } else {
        None
    }
}

#[test]
fn empty_usage_prints_only_total() {
    let out = render(&MemoryUsage::default());
    assert_eq!(out, "Total:           0 bytes\n");
}

#[test]
fn total_is_always_the_first_line() {
    let usage = MemoryUsage {
        total_bytes: 4096,
        rdf: RdfMemory {
            total_bytes: 4096,
            triple_count: 10,
            triples_and_indexes_bytes: 4096,
            ..Default::default()
        },
        ..Default::default()
    };
    let out = render(&usage);
    let first = out.lines().next().unwrap();
    assert!(
        first.starts_with("Total:"),
        "expected first line to start with 'Total:', got {first:?}"
    );
}

#[test]
fn store_section_only_emits_populated_subfields() {
    // nodes_bytes and edges_bytes set; property bytes zero: only those two sub-lines.
    let usage = MemoryUsage {
        store: StoreMemory {
            total_bytes: 3072,
            nodes_bytes: 2048,
            edges_bytes: 1024,
            ..Default::default()
        },
        ..Default::default()
    };
    let out = render(&usage);
    assert!(out.contains("Store:           3.00 KB"));
    assert!(out.contains("  nodes:         2.00 KB"));
    assert!(out.contains("  edges:         1.00 KB"));
    assert!(
        !out.contains("node props"),
        "should not emit node-props line when zero"
    );
    assert!(
        !out.contains("edge props"),
        "should not emit edge-props line when zero"
    );
}

#[test]
fn rdf_section_hidden_when_empty() {
    let usage = MemoryUsage {
        total_bytes: 1024,
        store: StoreMemory {
            total_bytes: 1024,
            nodes_bytes: 1024,
            ..Default::default()
        },
        ..Default::default()
    };
    let out = render(&usage);
    assert!(
        !out.contains("RDF:"),
        "RDF: line must not appear for empty RDF memory, got:\n{out}"
    );
}

#[test]
fn rdf_section_reports_triple_and_graph_counts() {
    let usage = MemoryUsage {
        rdf: RdfMemory {
            total_bytes: 5000,
            triple_count: 42,
            triples_and_indexes_bytes: 5000,
            named_graph_count: 3,
            ..Default::default()
        },
        ..Default::default()
    };
    let out = render(&usage);
    // Specific shape: "RDF:             <bytes> (N triples, M named graphs)"
    assert!(
        out.contains("42 triples"),
        "triple count not embedded in RDF line: {out}"
    );
    assert!(
        out.contains("3 named graphs"),
        "named-graph count not embedded in RDF line: {out}"
    );
}

#[test]
fn rdf_sub_lines_gate_on_nonzero_values() {
    let mut usage = MemoryUsage {
        rdf: RdfMemory {
            total_bytes: 100,
            triple_count: 1,
            triples_and_indexes_bytes: 100,
            ..Default::default()
        },
        ..Default::default()
    };
    let without_sub = render(&usage);
    assert!(!without_sub.contains("term dict"));
    assert!(!without_sub.contains("ring index"));

    usage.rdf.term_dictionary_bytes = 200;
    usage.rdf.ring_index_bytes = 300;
    let with_sub = render(&usage);
    assert!(with_sub.contains("  term dict:     200 bytes"));
    assert!(with_sub.contains("  ring index:    300 bytes"));
}

#[test]
fn cdc_section_hidden_when_empty() {
    let usage = MemoryUsage {
        total_bytes: 1024,
        store: StoreMemory {
            total_bytes: 1024,
            nodes_bytes: 1024,
            ..Default::default()
        },
        ..Default::default()
    };
    let out = render(&usage);
    assert!(!out.contains("CDC:"));
}

#[test]
fn cdc_section_reports_event_and_entity_counts() {
    let usage = MemoryUsage {
        cdc: CdcMemory {
            total_bytes: 2048,
            event_count: 7,
            entity_count: 4,
        },
        ..Default::default()
    };
    let out = render(&usage);
    assert!(out.contains("7 events"));
    assert!(out.contains("4 entities"));
}

#[test]
fn index_entries_include_name_and_item_count() {
    let usage = MemoryUsage {
        indexes: IndexMemory {
            total_bytes: 4096,
            vector_indexes: vec![NamedMemory {
                name: "person.embedding".to_string(),
                bytes: 3072,
                item_count: 150,
            }],
            text_indexes: vec![NamedMemory {
                name: "person.bio".to_string(),
                bytes: 1024,
                item_count: 50,
            }],
            ..Default::default()
        },
        ..Default::default()
    };
    let out = render(&usage);
    assert!(
        out.contains("vector[person.embedding]"),
        "vector index name missing: {out}"
    );
    assert!(
        out.contains("(150 items)"),
        "vector item count missing: {out}"
    );
    assert!(
        out.contains("text[person.bio]"),
        "text index name missing: {out}"
    );
    assert!(out.contains("(50 items)"), "text item count missing: {out}");
}

#[test]
fn caches_line_appears_with_plan_count_even_when_bytes_zero() {
    // A registry may report cached_plan_count > 0 before any bytes are
    // accounted for (e.g., Arc-shared entries). The line must still appear.
    let usage = MemoryUsage {
        caches: CacheMemory {
            total_bytes: 0,
            cached_plan_count: 12,
            ..Default::default()
        },
        ..Default::default()
    };
    let out = render(&usage);
    assert!(
        out.contains("Caches:"),
        "Caches line missing when plan_count > 0: {out}"
    );
    assert!(out.contains("(12 plans)"));
}

#[test]
fn buffer_manager_line_gates_on_allocated_or_budget() {
    let hidden = render(&MemoryUsage::default());
    assert!(!hidden.contains("Buffer manager"));

    let with_budget = render(&MemoryUsage {
        buffer_manager: BufferManagerMemory {
            budget_bytes: 1024,
            ..Default::default()
        },
        ..Default::default()
    });
    assert!(with_budget.contains("Buffer manager:"));
    assert!(with_budget.contains("0 bytes / 1.00 KB budget"));
}

#[test]
fn mvcc_avg_chain_line_gates_on_nonzero() {
    let zero_chain = render(&MemoryUsage {
        mvcc: MvccMemory {
            total_bytes: 512,
            average_chain_depth: depth(0.0),
            ..Default::default()
        },
        ..Default::default()
    });
    assert!(zero_chain.contains("MVCC:"));
    assert!(!zero_chain.contains("avg chain"));

    let with_chain = render(&MemoryUsage {
        mvcc: MvccMemory {
            total_bytes: 512,
            average_chain_depth: depth(2.75),
            ..Default::default()
        },
        ..Default::default()
    });
    assert!(with_chain.contains("  avg chain:     2.75"));
}

#[test]
fn string_pool_line_gates_on_nonzero() {
    let hidden = render(&MemoryUsage::default());
    assert!(!hidden.contains("String pool"));

    let shown = render(&MemoryUsage {
        string_pool: StringPoolMemory {
            total_bytes: 2048,
            ..Default::default()
        },
        ..Default::default()
    });
    assert!(shown.contains("String pool:     2.00 KB"));
}
