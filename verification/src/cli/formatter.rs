//! Sizes and memory reports as text.

use vstd::arithmetic::power2::{lemma2_to64, lemma_pow2_unfold, pow2};
use vstd::prelude::*;
use vstd::string::StringExecFns;

use crate::text::push_decimal;
use crate::text::{decimal, digit_char};
use crate::trusted::text::string_push;
use crate::types::float::round_to_double;
use crate::types::float::{half_even, law_small_integers_are_exact, rounded, EXACT_LIMIT};

verus! {

/// A kilobyte.
pub const KB: u64 = 1024;

/// A megabyte.
pub const MB: u64 = 1_048_576;

/// A gigabyte.
pub const GB: u64 = 1_073_741_824;

/// A number of hundredths, with two digits after the point.
pub open spec fn hundredths(n: nat) -> Seq<char> {
    decimal(n / 100) + "."@ + seq![
        digit_char((n / 10 % 10) as int),
        digit_char((n % 10) as int),
    ]
}

/// A number of bytes in units, with two digits after the point. The number is first
/// taken as a double, and the last digit is rounded, halves to even.
pub open spec fn in_units(bytes: nat, unit: int) -> Seq<char> {
    hundredths(half_even(100 * rounded(bytes), unit) as nat)
}

/// A number of bytes as text.
pub open spec fn bytes_text(bytes: nat) -> Seq<char> {
    if bytes >= GB {
        in_units(bytes, GB as int) + " GB"@
    } else if bytes >= MB {
        in_units(bytes, MB as int) + " MB"@
    } else if bytes >= KB {
        in_units(bytes, KB as int) + " KB"@
    } else {
        decimal(bytes) + " bytes"@
    }
}

/// A number of hundredths with its two digits after the point.
pub open spec fn with_two_digits(h: nat) -> Seq<char> {
    decimal(h / 100) + "."@ + seq![
        ('0' as int + h / 10 % 10) as char,
        ('0' as int + h % 10) as char,
    ]
}

/// Whether `h` hundredths of a unit are as near to a number of bytes as two digits
/// after the point allow.
pub open spec fn is_nearest(h: nat, bytes: nat, unit: nat) -> bool {
    2 * (h * unit - 100 * bytes) <= unit && 2 * (100 * bytes - h * unit) <= unit
}

/// How sizes are shown: below a kilobyte in bytes, then in kilobytes, megabytes and
/// gigabytes, each 1024 of the one before, with the two nearest digits after the point.
/// Sizes beyond the exact doubles are left out here.
pub proof fn law_sizes_are_shown_in_units(bytes: nat)
    requires
        bytes <= EXACT_LIMIT,
    ensures
        bytes < 1024 ==> bytes_text(bytes) == decimal(bytes) + " bytes"@,
        1024 <= bytes < 1024 * 1024 ==> exists|h: nat| #[trigger]
            is_nearest(h, bytes, 1024) && bytes_text(bytes) == with_two_digits(h) + " KB"@,
        1024 * 1024 <= bytes < 1024 * 1024 * 1024 ==> exists|h: nat| #[trigger]
            is_nearest(h, bytes, 1024 * 1024) && bytes_text(bytes) == with_two_digits(h) + " MB"@,
        1024 * 1024 * 1024 <= bytes ==> exists|h: nat| #[trigger]
            is_nearest(h, bytes, 1024 * 1024 * 1024) && bytes_text(bytes) == with_two_digits(h)
                + " GB"@,
{
    law_small_integers_are_exact(bytes as int);
    assert(rounded(bytes) == bytes);
    lemma_nearest(bytes, 1024);
    lemma_nearest(bytes, 1024 * 1024);
    lemma_nearest(bytes, 1024 * 1024 * 1024);
}

proof fn lemma_nearest(bytes: nat, unit: nat)
    requires
        rounded(bytes) == bytes,
        unit > 0,
    ensures
        half_even((100 * bytes) as int, unit as int) >= 0,
        is_nearest(half_even((100 * bytes) as int, unit as int) as nat, bytes, unit),
        in_units(bytes, unit as int) == with_two_digits(
            half_even((100 * bytes) as int, unit as int) as nat,
        ),
{
    let n = 100 * bytes as int;
    let d = unit as int;
    vstd::arithmetic::div_mod::lemma_fundamental_div_mod(n, d);
    vstd::arithmetic::div_mod::lemma_div_pos_is_pos(n, d);
    vstd::arithmetic::div_mod::lemma_mod_bound(n, d);
    let q = n / d;
    assert((q + 1) * d == q * d + d) by (nonlinear_arith);
    assert(d * q == q * d) by (nonlinear_arith);
    let h = half_even(n, d) as nat;
    assert(in_units(bytes, d) =~= with_two_digits(h));
}

/// Appends a number of hundredths.
fn push_hundredths(out: &mut String, n: u64)
    ensures
        final(out)@ == old(out)@ + hundredths(n as nat),
{
    push_decimal(out, n / 100);
    out.append(".");
    string_push(out, digit((n / 10 % 10) as u8));
    string_push(out, digit((n % 10) as u8));
    assert(out@ =~= old(out)@ + hundredths(n as nat));
}

/// The character of a digit.
fn digit(d: u8) -> (r: char)
    requires
        d < 10,
    ensures
        r == digit_char(d as int),
{
    (48 + d) as char
}

/// A number taken as a double.
fn as_double(n: u64) -> (r: u128)
    ensures
        r == rounded(n as nat),
        r <= 0x1_0000_0000_0000_0000,
{
    let (digits, zeros) = round_to_double(n);
    let mut value: u128 = digits as u128;
    let mut k: u32 = 0;
    proof {
        lemma2_to64();
        assert(digits * 1 == digits);
    }
    while k < zeros
        invariant
            k <= zeros <= 11,
            digits <= EXACT_LIMIT,
            value == digits * pow2(k as nat),
            value <= EXACT_LIMIT * pow2(k as nat),
            pow2(11) == 2048,
            pow2(k as nat) <= 2048,
        decreases zeros - k,
    {
        proof {
            lemma_pow2_unfold((k + 1) as nat);
            vstd::arithmetic::power2::lemma_pow2_strictly_increases(k as nat, 11);
            if k + 1 < 11 {
                vstd::arithmetic::power2::lemma_pow2_strictly_increases((k + 1) as nat, 11);
            }
            let p = pow2(k as nat);
            assert(digits * (2 * p) == 2 * (digits * p)) by (nonlinear_arith);
            assert(EXACT_LIMIT * p <= EXACT_LIMIT * 2048) by (nonlinear_arith)
                requires
                    p <= 2048,
            ;
        }
        value = value * 2;
        k = k + 1;
    }
    proof {
        assert(value <= EXACT_LIMIT * 2048) by (nonlinear_arith)
            requires
                value <= EXACT_LIMIT * pow2(k as nat),
                pow2(k as nat) <= 2048,
        ;
    }
    value
}

/// Appends a number of bytes in units.
fn push_in_units(out: &mut String, bytes: u64, unit: u64)
    requires
        unit >= KB,
    ensures
        final(out)@ == old(out)@ + in_units(bytes as nat, unit as int),
{
    let n: u128 = 100 * as_double(bytes);
    let d: u128 = unit as u128;
    let q: u128 = n / d;
    let r: u128 = n % d;
    let up: bool = 2 * r > d || (2 * r == d && q % 2 == 1);
    proof {
        assert(q <= n / 1024) by (nonlinear_arith)
            requires
                q == n / d,
                d >= 1024,
                n >= 0,
        ;
    }
    let h: u128 = if up {
        q + 1
    } else {
        q
    };
    assert(h == half_even(100 * rounded(bytes as nat), unit as int));
    push_hundredths(out, h as u64);
}

/// Appends a number of bytes as text.
fn push_bytes(out: &mut String, bytes: usize)
    ensures
        final(out)@ == old(out)@ + bytes_text(bytes as nat),
{
    let n: u64 = bytes as u64;
    if n >= GB {
        push_in_units(out, n, GB);
        out.append(" GB");
    } else if n >= MB {
        push_in_units(out, n, MB);
        out.append(" MB");
    } else if n >= KB {
        push_in_units(out, n, KB);
        out.append(" KB");
    } else {
        push_decimal(out, n);
        out.append(" bytes");
    }
    assert(out@ =~= old(out)@ + bytes_text(bytes as nat));
}

/// A number of bytes as text.
#[must_use]
pub fn format_bytes(bytes: usize) -> (r: String)
    ensures
        r@ == bytes_text(bytes as nat),
{
    let mut out: String = String::new();
    push_bytes(&mut out, bytes);
    assert(out@ =~= bytes_text(bytes as nat));
    out
}

/// The memory of an index.
#[derive(Debug, Default)]
pub struct NamedMemory {
    /// The name of the index.
    pub name: String,
    /// Its bytes.
    pub bytes: usize,
    /// How many items it holds.
    pub item_count: usize,
}

/// The memory of the store.
#[derive(Debug, Default)]
pub struct StoreMemory {
    /// All of it.
    pub total_bytes: usize,
    /// Nodes.
    pub nodes_bytes: usize,
    /// Edges.
    pub edges_bytes: usize,
    /// Properties of nodes.
    pub node_properties_bytes: usize,
    /// Properties of edges.
    pub edge_properties_bytes: usize,
}

/// The memory of the indexes.
#[derive(Debug, Default)]
pub struct IndexMemory {
    /// All of it.
    pub total_bytes: usize,
    /// Vector indexes.
    pub vector_indexes: Vec<NamedMemory>,
    /// Text indexes.
    pub text_indexes: Vec<NamedMemory>,
}

/// The memory of versions.
#[derive(Debug, Default)]
pub struct MvccMemory {
    /// All of it.
    pub total_bytes: usize,
    /// The average depth of version chains with two digits after the point, if it
    /// is above zero.
    pub average_chain_depth: Option<String>,
}

/// The memory of caches.
#[derive(Debug, Default)]
pub struct CacheMemory {
    /// All of it.
    pub total_bytes: usize,
    /// How many plans are cached.
    pub cached_plan_count: usize,
}

/// The memory of the string pool.
#[derive(Debug, Default)]
pub struct StringPoolMemory {
    /// All of it.
    pub total_bytes: usize,
}

/// The memory of the buffer manager.
#[derive(Debug, Default)]
pub struct BufferManagerMemory {
    /// What is allocated.
    pub allocated_bytes: usize,
    /// What may be allocated.
    pub budget_bytes: usize,
}

/// The memory of RDF data.
#[derive(Debug, Default)]
pub struct RdfMemory {
    /// All of it.
    pub total_bytes: usize,
    /// How many triples there are.
    pub triple_count: usize,
    /// Triples and their indexes.
    pub triples_and_indexes_bytes: usize,
    /// How many named graphs there are.
    pub named_graph_count: usize,
    /// The dictionary of terms.
    pub term_dictionary_bytes: usize,
    /// The ring index.
    pub ring_index_bytes: usize,
}

impl RdfMemory {
    /// There is no RDF data.
    pub open spec fn nothing(&self) -> bool {
        self.total_bytes == 0 && self.triple_count == 0 && self.named_graph_count == 0
    }

    /// Whether there is no RDF data.
    #[must_use]
    pub fn is_empty(&self) -> (r: bool)
        ensures
            r == self.nothing(),
    {
        self.total_bytes == 0 && self.triple_count == 0 && self.named_graph_count == 0
    }
}

/// The memory of change capture.
#[derive(Debug, Default)]
pub struct CdcMemory {
    /// All of it.
    pub total_bytes: usize,
    /// How many events are kept.
    pub event_count: usize,
    /// How many entities they are about.
    pub entity_count: usize,
}

impl CdcMemory {
    /// No changes are kept.
    pub open spec fn nothing(&self) -> bool {
        self.total_bytes == 0 && self.event_count == 0 && self.entity_count == 0
    }

    /// Whether no changes are kept.
    #[must_use]
    pub fn is_empty(&self) -> (r: bool)
        ensures
            r == self.nothing(),
    {
        self.total_bytes == 0 && self.event_count == 0 && self.entity_count == 0
    }
}

/// The memory of a database.
#[derive(Debug, Default)]
pub struct MemoryUsage {
    /// All of it.
    pub total_bytes: usize,
    /// The store.
    pub store: StoreMemory,
    /// The indexes.
    pub indexes: IndexMemory,
    /// Versions.
    pub mvcc: MvccMemory,
    /// Caches.
    pub caches: CacheMemory,
    /// The string pool.
    pub string_pool: StringPoolMemory,
    /// The buffer manager.
    pub buffer_manager: BufferManagerMemory,
    /// RDF data.
    pub rdf: RdfMemory,
    /// Change capture.
    pub cdc: CdcMemory,
}

/// A line with a label and a size.
pub open spec fn size_line(label: Seq<char>, bytes: usize) -> Seq<char> {
    label + bytes_text(bytes as nat) + "\n"@
}

/// A line that is left out if the size is zero.
pub open spec fn optional_line(label: Seq<char>, bytes: usize) -> Seq<char> {
    if bytes > 0 {
        size_line(label, bytes)
    } else {
        Seq::empty()
    }
}

/// The section on the store.
pub open spec fn store_text(m: StoreMemory) -> Seq<char> {
    if m.total_bytes > 0 {
        "\n"@ + size_line("Store:           "@, m.total_bytes) + optional_line(
            "  nodes:         "@,
            m.nodes_bytes,
        ) + optional_line("  edges:         "@, m.edges_bytes) + optional_line(
            "  node props:    "@,
            m.node_properties_bytes,
        ) + optional_line("  edge props:    "@, m.edge_properties_bytes)
    } else {
        Seq::empty()
    }
}

/// The line on an index.
pub open spec fn index_line(kind: Seq<char>, m: NamedMemory) -> Seq<char> {
    kind + m.name@ + "]: "@ + bytes_text(m.bytes as nat) + " ("@ + decimal(m.item_count as nat)
        + " items)\n"@
}

/// The lines on indexes.
pub open spec fn index_lines(kind: Seq<char>, indexes: Seq<NamedMemory>) -> Seq<char>
    decreases indexes.len(),
{
    if indexes.len() == 0 {
        Seq::empty()
    } else {
        index_lines(kind, indexes.drop_last()) + index_line(kind, indexes.last())
    }
}

/// The section on the indexes.
pub open spec fn indexes_text(m: IndexMemory) -> Seq<char> {
    if m.total_bytes > 0 {
        "\n"@ + size_line("Indexes:         "@, m.total_bytes) + index_lines(
            "  vector["@,
            m.vector_indexes@,
        ) + index_lines("  text["@, m.text_indexes@)
    } else {
        Seq::empty()
    }
}

/// The section on versions.
pub open spec fn mvcc_text(m: MvccMemory) -> Seq<char> {
    if m.total_bytes > 0 {
        "\n"@ + size_line("MVCC:            "@, m.total_bytes) + match m.average_chain_depth {
            Some(depth) => "  avg chain:     "@ + depth@ + "\n"@,
            None => Seq::empty(),
        }
    } else {
        Seq::empty()
    }
}

/// The section on caches. It is there with a plan that takes no bytes yet, too.
pub open spec fn caches_text(m: CacheMemory) -> Seq<char> {
    if m.total_bytes > 0 || m.cached_plan_count > 0 {
        "\n"@ + "Caches:          "@ + bytes_text(m.total_bytes as nat) + " ("@ + decimal(
            m.cached_plan_count as nat,
        ) + " plans)\n"@
    } else {
        Seq::empty()
    }
}

/// The section on the string pool.
pub open spec fn string_pool_text(m: StringPoolMemory) -> Seq<char> {
    if m.total_bytes > 0 {
        "\n"@ + size_line("String pool:     "@, m.total_bytes)
    } else {
        Seq::empty()
    }
}

/// The section on the buffer manager.
pub open spec fn buffer_manager_text(m: BufferManagerMemory) -> Seq<char> {
    if m.allocated_bytes > 0 || m.budget_bytes > 0 {
        "\n"@ + "Buffer manager:  "@ + bytes_text(m.allocated_bytes as nat) + " / "@ + bytes_text(
            m.budget_bytes as nat,
        ) + " budget\n"@
    } else {
        Seq::empty()
    }
}

/// The section on RDF data.
pub open spec fn rdf_text(m: RdfMemory) -> Seq<char> {
    if !m.nothing() {
        "\n"@ + "RDF:             "@ + bytes_text(m.total_bytes as nat) + " ("@ + decimal(
            m.triple_count as nat,
        ) + " triples, "@ + decimal(m.named_graph_count as nat) + " named graphs)\n"@
            + optional_line("  term dict:     "@, m.term_dictionary_bytes) + optional_line(
            "  ring index:    "@,
            m.ring_index_bytes,
        )
    } else {
        Seq::empty()
    }
}

/// The section on change capture.
pub open spec fn cdc_text(m: CdcMemory) -> Seq<char> {
    if !m.nothing() {
        "\n"@ + "CDC:             "@ + bytes_text(m.total_bytes as nat) + " ("@ + decimal(
            m.event_count as nat,
        ) + " events, "@ + decimal(m.entity_count as nat) + " entities)\n"@
    } else {
        Seq::empty()
    }
}

/// A memory report: the total, and then a section for each component that takes any
/// memory.
pub open spec fn memory_text(m: MemoryUsage) -> Seq<char> {
    size_line("Total:           "@, m.total_bytes) + store_text(m.store) + indexes_text(m.indexes)
        + mvcc_text(m.mvcc) + caches_text(m.caches) + string_pool_text(m.string_pool)
        + buffer_manager_text(m.buffer_manager) + rdf_text(m.rdf) + cdc_text(m.cdc)
}

/// Whether a report has a line, of which the line break is a part.
pub open spec fn has_line(report: Seq<char>, line: Seq<char>) -> bool {
    exists|i: int| #[trigger] line_at(report, line, i)
}

/// Whether a line stands at a place of a report, where a line begins.
pub open spec fn line_at(report: Seq<char>, line: Seq<char>, i: int) -> bool {
    &&& 0 <= i
    &&& i + line.len() <= report.len()
    &&& report.subrange(i, i + line.len()) == line
    &&& i == 0 || report[i - 1] == '\n'
}

/// Whether a text is made of whole lines.
spec fn is_whole(s: Seq<char>) -> bool {
    s.len() == 0 || s.last() == '\n'
}

proof fn lemma_whole_joined(a: Seq<char>, b: Seq<char>)
    requires
        is_whole(a),
        is_whole(b),
    ensures
        is_whole(a + b),
{
    if b.len() == 0 {
        assert(a + b =~= a);
    }
}

proof fn lemma_has_line(report: Seq<char>, a: Seq<char>, line: Seq<char>, b: Seq<char>)
    requires
        report == a + line + b,
        is_whole(a),
    ensures
        has_line(report, line),
{
    assert(report.subrange(a.len() as int, a.len() as int + line.len()) =~= line);
    assert(line_at(report, line, a.len() as int));
}

/// The lines of a part are lines of the whole.
proof fn lemma_has_line_inside(
    report: Seq<char>,
    a: Seq<char>,
    part: Seq<char>,
    b: Seq<char>,
    line: Seq<char>,
)
    requires
        report == a + part + b,
        is_whole(a),
        has_line(part, line),
        line.len() > 0,
    ensures
        has_line(report, line),
{
    let i = choose|i: int| #[trigger] line_at(part, line, i);
    let k = a.len() + i;
    assert(report.subrange(k, k + line.len()) =~= part.subrange(i, i + line.len()));
    if i > 0 {
        assert(report[k - 1] == part[i - 1]);
    }
    assert(line_at(report, line, k));
}

proof fn lemma_size_lines(label: Seq<char>, bytes: usize)
    ensures
        is_whole(size_line(label, bytes)),
        is_whole(optional_line(label, bytes)),
        is_whole("\n"@),
        "\n"@.len() == 1,
{
    reveal_strlit("\n");
    assert(size_line(label, bytes).last() == '\n');
}

/// Each line on the store tells the field of its name, if there is anything to tell:
/// the lines on nodes, edges, and the properties of each.
pub proof fn law_store_lines(m: StoreMemory)
    ensures
        m.total_bytes > 0 ==> {
            &&& has_line(
                store_text(m),
                "Store:           "@ + bytes_text(m.total_bytes as nat) + "\n"@,
            )
            &&& m.nodes_bytes > 0 ==> has_line(
                store_text(m),
                "  nodes:         "@ + bytes_text(m.nodes_bytes as nat) + "\n"@,
            )
            &&& m.edges_bytes > 0 ==> has_line(
                store_text(m),
                "  edges:         "@ + bytes_text(m.edges_bytes as nat) + "\n"@,
            )
            &&& m.node_properties_bytes > 0 ==> has_line(
                store_text(m),
                "  node props:    "@ + bytes_text(m.node_properties_bytes as nat) + "\n"@,
            )
            &&& m.edge_properties_bytes > 0 ==> has_line(
                store_text(m),
                "  edge props:    "@ + bytes_text(m.edge_properties_bytes as nat) + "\n"@,
            )
        },
        m.total_bytes == 0 ==> store_text(m).len() == 0,
{
    let p1 = size_line("Store:           "@, m.total_bytes);
    let p2 = optional_line("  nodes:         "@, m.nodes_bytes);
    let p3 = optional_line("  edges:         "@, m.edges_bytes);
    let p4 = optional_line("  node props:    "@, m.node_properties_bytes);
    let p5 = optional_line("  edge props:    "@, m.edge_properties_bytes);
    lemma_size_lines("Store:           "@, m.total_bytes);
    lemma_size_lines("  nodes:         "@, m.nodes_bytes);
    lemma_size_lines("  edges:         "@, m.edges_bytes);
    lemma_size_lines("  node props:    "@, m.node_properties_bytes);
    let a1 = "\n"@;
    let a2 = a1 + p1;
    let a3 = a2 + p2;
    let a4 = a3 + p3;
    let a5 = a4 + p4;
    lemma_whole_joined(a1, p1);
    lemma_whole_joined(a2, p2);
    lemma_whole_joined(a3, p3);
    lemma_whole_joined(a4, p4);
    if m.total_bytes > 0 {
        let t = store_text(m);
        assert(t =~= a1 + p1 + (p2 + p3 + p4 + p5));
        assert(t =~= a2 + p2 + (p3 + p4 + p5));
        assert(t =~= a3 + p3 + (p4 + p5));
        assert(t =~= a4 + p4 + p5);
        assert(t =~= a5 + p5 + Seq::<char>::empty());
        lemma_has_line(t, a1, p1, p2 + p3 + p4 + p5);
        lemma_has_line(t, a2, p2, p3 + p4 + p5);
        lemma_has_line(t, a3, p3, p4 + p5);
        lemma_has_line(t, a4, p4, p5);
        lemma_has_line(t, a5, p5, Seq::empty());
    }
}

/// The line of a size, as it stands in a report: nothing where the size is zero.
pub open spec fn told(label: Seq<char>, bytes: usize) -> Seq<char> {
    if bytes == 0 {
        Seq::empty()
    } else {
        label + bytes_text(bytes as nat) + "\n"@
    }
}

/// Whether a text is a line with something before and something after it.
pub open spec fn stands_between(
    text: Seq<char>,
    before: Seq<char>,
    line: Seq<char>,
    after: Seq<char>,
) -> bool {
    text == before + line + after
}

/// Each size of the store shows in its own line and nowhere else: another size there
/// changes that line alone.
pub proof fn law_store_sizes_show_in_their_lines(m: StoreMemory, x: usize)
    requires
        m.total_bytes > 0,
    ensures
        exists|a: Seq<char>, b: Seq<char>|
            #[trigger] stands_between(store_text(m), a, told("  nodes:         "@, m.nodes_bytes), b)
                && stands_between(
                store_text(StoreMemory { nodes_bytes: x, ..m }),
                a,
                told("  nodes:         "@, x),
                b,
            ),
        exists|a: Seq<char>, b: Seq<char>|
            #[trigger] stands_between(store_text(m), a, told("  edges:         "@, m.edges_bytes), b)
                && stands_between(
                store_text(StoreMemory { edges_bytes: x, ..m }),
                a,
                told("  edges:         "@, x),
                b,
            ),
        exists|a: Seq<char>, b: Seq<char>|
            #[trigger] stands_between(
                store_text(m),
                a,
                told("  node props:    "@, m.node_properties_bytes),
                b,
            ) && stands_between(
                store_text(StoreMemory { node_properties_bytes: x, ..m }),
                a,
                told("  node props:    "@, x),
                b,
            ),
        exists|a: Seq<char>, b: Seq<char>|
            #[trigger] stands_between(
                store_text(m),
                a,
                told("  edge props:    "@, m.edge_properties_bytes),
                b,
            ) && stands_between(
                store_text(StoreMemory { edge_properties_bytes: x, ..m }),
                a,
                told("  edge props:    "@, x),
                b,
            ),
{
    let p1 = size_line("Store:           "@, m.total_bytes);
    let p2 = optional_line("  nodes:         "@, m.nodes_bytes);
    let p3 = optional_line("  edges:         "@, m.edges_bytes);
    let p4 = optional_line("  node props:    "@, m.node_properties_bytes);
    let p5 = optional_line("  edge props:    "@, m.edge_properties_bytes);
    let a2 = "\n"@ + p1;
    let a3 = a2 + p2;
    let a4 = a3 + p3;
    let a5 = a4 + p4;
    let t = store_text(m);
    let n = optional_line("  nodes:         "@, x);
    assert(store_text(StoreMemory { nodes_bytes: x, ..m }) =~= a2 + n + (p3 + p4 + p5));
    assert(t =~= a2 + p2 + (p3 + p4 + p5));
    assert(stands_between(t, a2, told("  nodes:         "@, m.nodes_bytes), p3 + p4 + p5));
    let e = optional_line("  edges:         "@, x);
    assert(store_text(StoreMemory { edges_bytes: x, ..m }) =~= a3 + e + (p4 + p5));
    assert(t =~= a3 + p3 + (p4 + p5));
    assert(stands_between(t, a3, told("  edges:         "@, m.edges_bytes), p4 + p5));
    let np = optional_line("  node props:    "@, x);
    assert(store_text(StoreMemory { node_properties_bytes: x, ..m }) =~= a4 + np + p5);
    assert(t =~= a4 + p4 + p5);
    assert(stands_between(t, a4, told("  node props:    "@, m.node_properties_bytes), p5));
    let ep = optional_line("  edge props:    "@, x);
    let nothing = Seq::<char>::empty();
    assert(store_text(StoreMemory { edge_properties_bytes: x, ..m }) =~= a5 + ep + nothing);
    assert(t =~= a5 + p5 + nothing);
    assert(stands_between(t, a5, told("  edge props:    "@, m.edge_properties_bytes), nothing));
}

/// Each index has its line, with its name, its size and the number of its items; a
/// vector index is told as such, and a text index too.
pub proof fn law_index_lines(m: IndexMemory, i: int)
    ensures
        m.total_bytes > 0 ==> {
            &&& has_line(
                indexes_text(m),
                "Indexes:         "@ + bytes_text(m.total_bytes as nat) + "\n"@,
            )
            &&& 0 <= i < m.vector_indexes@.len() ==> has_line(
                indexes_text(m),
                "  vector["@ + m.vector_indexes@[i].name@ + "]: "@ + bytes_text(
                    m.vector_indexes@[i].bytes as nat,
                ) + " ("@ + decimal(m.vector_indexes@[i].item_count as nat) + " items)\n"@,
            )
            &&& 0 <= i < m.text_indexes@.len() ==> has_line(
                indexes_text(m),
                "  text["@ + m.text_indexes@[i].name@ + "]: "@ + bytes_text(
                    m.text_indexes@[i].bytes as nat,
                ) + " ("@ + decimal(m.text_indexes@[i].item_count as nat) + " items)\n"@,
            )
        },
        m.total_bytes == 0 ==> indexes_text(m).len() == 0,
{
    let p1 = size_line("Indexes:         "@, m.total_bytes);
    let p2 = index_lines("  vector["@, m.vector_indexes@);
    let p3 = index_lines("  text["@, m.text_indexes@);
    lemma_size_lines("Indexes:         "@, m.total_bytes);
    let a1 = "\n"@;
    let a2 = a1 + p1;
    lemma_whole_joined(a1, p1);
    lemma_index_lines("  vector["@, m.vector_indexes@, i);
    lemma_index_lines("  text["@, m.text_indexes@, i);
    lemma_whole_joined(a2, p2);
    if m.total_bytes > 0 {
        let t = indexes_text(m);
        assert(t =~= a1 + p1 + (p2 + p3));
        assert(t =~= a2 + p2 + p3);
        assert(t =~= (a2 + p2) + p3 + Seq::<char>::empty());
        lemma_has_line(t, a1, p1, p2 + p3);
        if 0 <= i < m.vector_indexes@.len() {
            lemma_has_line_inside(t, a2, p2, p3, index_line("  vector["@, m.vector_indexes@[i]));
        }
        if 0 <= i < m.text_indexes@.len() {
            lemma_has_line_inside(
                t,
                a2 + p2,
                p3,
                Seq::empty(),
                index_line("  text["@, m.text_indexes@[i]),
            );
        }
    }
}

proof fn lemma_index_line(kind: Seq<char>, m: NamedMemory)
    ensures
        is_whole(index_line(kind, m)),
        index_line(kind, m).len() > 0,
{
    reveal_strlit(" items)\n");
    assert(" items)\n"@.last() == '\n');
}

proof fn lemma_index_lines(kind: Seq<char>, indexes: Seq<NamedMemory>, i: int)
    ensures
        is_whole(index_lines(kind, indexes)),
        0 <= i < indexes.len() ==> has_line(
            index_lines(kind, indexes),
            index_line(kind, indexes[i]),
        ) && index_line(kind, indexes[i]).len() > 0,
    decreases indexes.len(),
{
    if indexes.len() > 0 {
        let front = index_lines(kind, indexes.drop_last());
        let line = index_line(kind, indexes.last());
        lemma_index_lines(kind, indexes.drop_last(), i);
        lemma_index_line(kind, indexes.last());
        lemma_whole_joined(front, line);
        if i == indexes.len() - 1 {
            assert(front + line =~= front + line + Seq::<char>::empty());
            lemma_has_line(front + line, front, line, Seq::empty());
        } else if 0 <= i < indexes.len() - 1 {
            assert(indexes.drop_last()[i] == indexes[i]);
            let wanted = index_line(kind, indexes[i]);
            lemma_line_stays(front, line, wanted);
        }
    }
}

/// What follows takes no line away.
proof fn lemma_line_stays(front: Seq<char>, back: Seq<char>, line: Seq<char>)
    requires
        has_line(front, line),
        line.len() > 0,
    ensures
        has_line(front + back, line),
{
    assert(front + back =~= Seq::<char>::empty() + front + back);
    lemma_has_line_inside(front + back, Seq::empty(), front, back, line);
}

/// The lines on versions tell their memory and the average depth of a chain. Without
/// memory there are none.
pub proof fn law_version_lines(m: MvccMemory)
    ensures
        m.total_bytes > 0 ==> has_line(
            mvcc_text(m),
            "MVCC:            "@ + bytes_text(m.total_bytes as nat) + "\n"@,
        ),
        m.total_bytes > 0 && m.average_chain_depth is Some ==> has_line(
            mvcc_text(m),
            "  avg chain:     "@ + m.average_chain_depth->0@ + "\n"@,
        ),
        m.total_bytes == 0 ==> mvcc_text(m).len() == 0,
{
    let br = "\n"@;
    let none = Seq::<char>::empty();
    lemma_size_lines("MVCC:            "@, m.total_bytes);
    if m.total_bytes > 0 {
        let p = size_line("MVCC:            "@, m.total_bytes);
        let q = match m.average_chain_depth {
            Some(depth) => "  avg chain:     "@ + depth@ + "\n"@,
            None => none,
        };
        lemma_whole_joined(br, p);
        assert(mvcc_text(m) =~= br + p + q);
        assert(mvcc_text(m) =~= (br + p) + q + none);
        lemma_has_line(mvcc_text(m), br, p, q);
        lemma_has_line(mvcc_text(m), br + p, q, none);
    }
}

/// A line after a line break is a line.
proof fn lemma_single_line(text: Seq<char>, line: Seq<char>)
    requires
        text == "\n"@ + line,
    ensures
        has_line(text, line),
{
    reveal_strlit("\n");
    assert(text =~= "\n"@ + line + Seq::<char>::empty());
    lemma_has_line(text, "\n"@, line, Seq::empty());
}

/// The line on caches tells their memory and the number of plans. It is left out where
/// there is neither.
pub proof fn law_cache_line(m: CacheMemory)
    ensures
        m.total_bytes > 0 || m.cached_plan_count > 0 ==> has_line(
            caches_text(m),
            "Caches:          "@ + bytes_text(m.total_bytes as nat) + " ("@ + decimal(
                m.cached_plan_count as nat,
            ) + " plans)\n"@,
        ),
        m.total_bytes == 0 && m.cached_plan_count == 0 ==> caches_text(m).len() == 0,
{
    let line = "Caches:          "@ + bytes_text(m.total_bytes as nat) + " ("@ + decimal(
        m.cached_plan_count as nat,
    ) + " plans)\n"@;
    if m.total_bytes > 0 || m.cached_plan_count > 0 {
        assert(caches_text(m) =~= "\n"@ + line);
        lemma_single_line(caches_text(m), line);
    }
}

/// The line on the string pool tells its memory, if it has any.
pub proof fn law_string_pool_line(m: StringPoolMemory)
    ensures
        m.total_bytes > 0 ==> has_line(
            string_pool_text(m),
            "String pool:     "@ + bytes_text(m.total_bytes as nat) + "\n"@,
        ),
        m.total_bytes == 0 ==> string_pool_text(m).len() == 0,
{
    if m.total_bytes > 0 {
        lemma_single_line(
            string_pool_text(m),
            "String pool:     "@ + bytes_text(m.total_bytes as nat) + "\n"@,
        );
    }
}

/// The line on the buffer manager tells what is allocated and then what may be. It is
/// left out where both are zero.
pub proof fn law_buffer_manager_line(m: BufferManagerMemory)
    ensures
        m.allocated_bytes > 0 || m.budget_bytes > 0 ==> has_line(
            buffer_manager_text(m),
            "Buffer manager:  "@ + bytes_text(m.allocated_bytes as nat) + " / "@ + bytes_text(
                m.budget_bytes as nat,
            ) + " budget\n"@,
        ),
        m.allocated_bytes == 0 && m.budget_bytes == 0 ==> buffer_manager_text(m).len() == 0,
{
    let line = "Buffer manager:  "@ + bytes_text(m.allocated_bytes as nat) + " / "@ + bytes_text(
        m.budget_bytes as nat,
    ) + " budget\n"@;
    if m.allocated_bytes > 0 || m.budget_bytes > 0 {
        assert(buffer_manager_text(m) =~= "\n"@ + line);
        lemma_single_line(buffer_manager_text(m), line);
    }
}

/// The lines on RDF data tell its memory, its triples and its named graphs, the memory
/// of the dictionary and that of the ring. They are left out where there is no data.
pub proof fn law_rdf_lines(m: RdfMemory)
    ensures
        m.total_bytes > 0 || m.triple_count > 0 || m.named_graph_count > 0 ==> {
            &&& has_line(
                rdf_text(m),
                "RDF:             "@ + bytes_text(m.total_bytes as nat) + " ("@ + decimal(
                    m.triple_count as nat,
                ) + " triples, "@ + decimal(m.named_graph_count as nat) + " named graphs)\n"@,
            )
            &&& m.term_dictionary_bytes > 0 ==> has_line(
                rdf_text(m),
                "  term dict:     "@ + bytes_text(m.term_dictionary_bytes as nat) + "\n"@,
            )
            &&& m.ring_index_bytes > 0 ==> has_line(
                rdf_text(m),
                "  ring index:    "@ + bytes_text(m.ring_index_bytes as nat) + "\n"@,
            )
        },
        m.total_bytes == 0 && m.triple_count == 0 && m.named_graph_count == 0 ==> rdf_text(m).len()
            == 0,
{
    if m.total_bytes > 0 || m.triple_count > 0 || m.named_graph_count > 0 {
        let br = "\n"@;
        let none = Seq::<char>::empty();
        let p = "RDF:             "@ + bytes_text(m.total_bytes as nat) + " ("@ + decimal(
            m.triple_count as nat,
        ) + " triples, "@ + decimal(m.named_graph_count as nat) + " named graphs)\n"@;
        let q = optional_line("  term dict:     "@, m.term_dictionary_bytes);
        let r = optional_line("  ring index:    "@, m.ring_index_bytes);
        assert(rdf_text(m) =~= br + p + q + r);
        lemma_rdf_head(m);
        lemma_size_lines("  term dict:     "@, m.term_dictionary_bytes);
        lemma_three_lines(rdf_text(m), p, q, r);
    }
}

proof fn lemma_rdf_head(m: RdfMemory)
    ensures
        is_whole(
            "RDF:             "@ + bytes_text(m.total_bytes as nat) + " ("@ + decimal(
                m.triple_count as nat,
            ) + " triples, "@ + decimal(m.named_graph_count as nat) + " named graphs)\n"@,
        ),
{
    reveal_strlit(" named graphs)\n");
    assert(" named graphs)\n"@.last() == '\n');
}

proof fn lemma_three_lines(text: Seq<char>, p: Seq<char>, q: Seq<char>, r: Seq<char>)
    requires
        text == "\n"@ + p + q + r,
        is_whole(p),
        is_whole(q),
    ensures
        has_line(text, p),
        has_line(text, q),
        has_line(text, r),
{
    reveal_strlit("\n");
    let br = "\n"@;
    let none = Seq::<char>::empty();
    lemma_whole_joined(br, p);
    lemma_whole_joined(br + p, q);
    assert(text =~= br + p + (q + r));
    assert(text =~= (br + p + q) + r + none);
    lemma_has_line(text, br, p, q + r);
    lemma_has_line(text, br + p, q, r);
    lemma_has_line(text, br + p + q, r, none);
}

/// The line on change capture tells its memory, the events and the entities that they
/// are about. It is left out where there are none.
pub proof fn law_change_capture_line(m: CdcMemory)
    ensures
        m.total_bytes > 0 || m.event_count > 0 || m.entity_count > 0 ==> has_line(
            cdc_text(m),
            "CDC:             "@ + bytes_text(m.total_bytes as nat) + " ("@ + decimal(
                m.event_count as nat,
            ) + " events, "@ + decimal(m.entity_count as nat) + " entities)\n"@,
        ),
        m.total_bytes == 0 && m.event_count == 0 && m.entity_count == 0 ==> cdc_text(m).len() == 0,
{
    let line = "CDC:             "@ + bytes_text(m.total_bytes as nat) + " ("@ + decimal(
        m.event_count as nat,
    ) + " events, "@ + decimal(m.entity_count as nat) + " entities)\n"@;
    if m.total_bytes > 0 || m.event_count > 0 || m.entity_count > 0 {
        assert(cdc_text(m) =~= "\n"@ + line);
        lemma_single_line(cdc_text(m), line);
    }
}

/// Each part of a report is made of whole lines.
proof fn lemma_parts_are_whole(m: MemoryUsage)
    ensures
        is_whole(size_line("Total:           "@, m.total_bytes)),
        is_whole(store_text(m.store)),
        is_whole(indexes_text(m.indexes)),
        is_whole(mvcc_text(m.mvcc)),
        is_whole(caches_text(m.caches)),
        is_whole(string_pool_text(m.string_pool)),
        is_whole(buffer_manager_text(m.buffer_manager)),
        is_whole(rdf_text(m.rdf)),
{
    let br = "\n"@;
    lemma_size_lines("Total:           "@, m.total_bytes);
    lemma_size_lines("Store:           "@, m.store.total_bytes);
    lemma_size_lines("  nodes:         "@, m.store.nodes_bytes);
    lemma_size_lines("  edges:         "@, m.store.edges_bytes);
    lemma_size_lines("  node props:    "@, m.store.node_properties_bytes);
    lemma_size_lines("  edge props:    "@, m.store.edge_properties_bytes);
    let p1 = size_line("Store:           "@, m.store.total_bytes);
    let p2 = optional_line("  nodes:         "@, m.store.nodes_bytes);
    let p3 = optional_line("  edges:         "@, m.store.edges_bytes);
    let p4 = optional_line("  node props:    "@, m.store.node_properties_bytes);
    let p5 = optional_line("  edge props:    "@, m.store.edge_properties_bytes);
    lemma_whole_joined(br, p1);
    lemma_whole_joined(br + p1, p2);
    lemma_whole_joined(br + p1 + p2, p3);
    lemma_whole_joined(br + p1 + p2 + p3, p4);
    lemma_whole_joined(br + p1 + p2 + p3 + p4, p5);
    lemma_size_lines("Indexes:         "@, m.indexes.total_bytes);
    let q1 = size_line("Indexes:         "@, m.indexes.total_bytes);
    lemma_index_lines("  vector["@, m.indexes.vector_indexes@, 0);
    lemma_index_lines("  text["@, m.indexes.text_indexes@, 0);
    let q2 = index_lines("  vector["@, m.indexes.vector_indexes@);
    let q3 = index_lines("  text["@, m.indexes.text_indexes@);
    lemma_whole_joined(br, q1);
    lemma_whole_joined(br + q1, q2);
    lemma_whole_joined(br + q1 + q2, q3);
    lemma_size_lines("MVCC:            "@, m.mvcc.total_bytes);
    lemma_size_lines("String pool:     "@, m.string_pool.total_bytes);
    lemma_size_lines("  term dict:     "@, m.rdf.term_dictionary_bytes);
    lemma_size_lines("  ring index:    "@, m.rdf.ring_index_bytes);
    reveal_strlit("\n");
    reveal_strlit(" plans)\n");
    reveal_strlit(" budget\n");
    reveal_strlit(" named graphs)\n");
    assert(" plans)\n"@.last() == '\n' && " budget\n"@.last() == '\n' && " named graphs)\n"@.last()
        == '\n');
    let r1 = br + "RDF:             "@ + bytes_text(m.rdf.total_bytes as nat) + " ("@ + decimal(
        m.rdf.triple_count as nat,
    ) + " triples, "@ + decimal(m.rdf.named_graph_count as nat) + " named graphs)\n"@;
    let r2 = optional_line("  term dict:     "@, m.rdf.term_dictionary_bytes);
    let r3 = optional_line("  ring index:    "@, m.rdf.ring_index_bytes);
    lemma_whole_joined(r1, r2);
    lemma_whole_joined(r1 + r2, r3);
}

/// A report begins with the total, and has every line of the parts: of the store, the
/// indexes, versions, caches, the string pool, the buffer manager, RDF data and change
/// capture.
pub proof fn law_report_has_the_lines_of_its_parts(m: MemoryUsage, line: Seq<char>)
    requires
        line.len() > 0,
    ensures
        line_at(
            memory_text(m),
            "Total:           "@ + bytes_text(m.total_bytes as nat) + "\n"@,
            0,
        ),
        has_line(store_text(m.store), line) || has_line(indexes_text(m.indexes), line) || has_line(
            mvcc_text(m.mvcc),
            line,
        ) || has_line(caches_text(m.caches), line) || has_line(
            string_pool_text(m.string_pool),
            line,
        ) || has_line(buffer_manager_text(m.buffer_manager), line) || has_line(
            rdf_text(m.rdf),
            line,
        ) || has_line(cdc_text(m.cdc), line) ==> has_line(memory_text(m), line),
{
    lemma_parts_are_whole(m);
    let first = size_line("Total:           "@, m.total_bytes);
    let a = first + store_text(m.store);
    let b = a + indexes_text(m.indexes);
    let c = b + mvcc_text(m.mvcc);
    let d = c + caches_text(m.caches);
    let e = d + string_pool_text(m.string_pool);
    let f = e + buffer_manager_text(m.buffer_manager);
    let g = f + rdf_text(m.rdf);
    lemma_next_part(first, store_text(m.store), line);
    lemma_next_part(a, indexes_text(m.indexes), line);
    lemma_next_part(b, mvcc_text(m.mvcc), line);
    lemma_next_part(c, caches_text(m.caches), line);
    lemma_next_part(d, string_pool_text(m.string_pool), line);
    lemma_next_part(e, buffer_manager_text(m.buffer_manager), line);
    lemma_next_part(f, rdf_text(m.rdf), line);
    lemma_next_part(g, cdc_text(m.cdc), line);
    assert(memory_text(m) == g + cdc_text(m.cdc));
    assert(memory_text(m).subrange(0, first.len() as int) =~= first);
}

/// A report with one more part has the lines that it had and those of the part.
proof fn lemma_next_part(report: Seq<char>, part: Seq<char>, line: Seq<char>)
    requires
        is_whole(report),
        line.len() > 0,
    ensures
        is_whole(part) ==> is_whole(report + part),
        has_line(report, line) || has_line(part, line) ==> has_line(report + part, line),
{
    if is_whole(part) {
        lemma_whole_joined(report, part);
    }
    if has_line(report, line) {
        lemma_line_stays(report, part, line);
    }
    if has_line(part, line) {
        assert(report + part =~= report + part + Seq::<char>::empty());
        lemma_has_line_inside(report + part, report, part, Seq::empty(), line);
    }
}

/// Appends a line with a label and a size.
fn push_size_line(out: &mut String, label: &str, bytes: usize)
    ensures
        final(out)@ == old(out)@ + size_line(label@, bytes),
{
    out.append(label);
    push_bytes(out, bytes);
    out.append("\n");
    assert(out@ =~= old(out)@ + size_line(label@, bytes));
}

/// Appends a line that is left out if the size is zero.
fn push_optional_line(out: &mut String, label: &str, bytes: usize)
    ensures
        final(out)@ == old(out)@ + optional_line(label@, bytes),
{
    if bytes > 0 {
        push_size_line(out, label, bytes);
    }
    assert(out@ =~= old(out)@ + optional_line(label@, bytes));
}

fn push_store(out: &mut String, m: &StoreMemory)
    ensures
        final(out)@ == old(out)@ + store_text(*m),
{
    if m.total_bytes > 0 {
        out.append("\n");
        push_size_line(out, "Store:           ", m.total_bytes);
        push_optional_line(out, "  nodes:         ", m.nodes_bytes);
        push_optional_line(out, "  edges:         ", m.edges_bytes);
        push_optional_line(out, "  node props:    ", m.node_properties_bytes);
        push_optional_line(out, "  edge props:    ", m.edge_properties_bytes);
    }
    assert(out@ =~= old(out)@ + store_text(*m));
}

fn push_index_lines(out: &mut String, kind: &str, indexes: &Vec<NamedMemory>)
    ensures
        final(out)@ == old(out)@ + index_lines(kind@, indexes@),
{
    let ghost before = out@;
    let mut i: usize = 0;
    assert(out@ =~= before + index_lines(kind@, indexes@.take(0)));
    while i < indexes.len()
        invariant
            i <= indexes@.len(),
            out@ == before + index_lines(kind@, indexes@.take(i as int)),
        decreases indexes.len() - i,
    {
        let m: &NamedMemory = &indexes[i];
        let ghost so_far = out@;
        out.append(kind);
        out.append(m.name.as_str());
        out.append("]: ");
        push_bytes(out, m.bytes);
        out.append(" (");
        push_decimal(out, m.item_count as u64);
        out.append(" items)\n");
        proof {
            assert(out@ =~= so_far + index_line(kind@, *m));
            assert(indexes@.take(i + 1).drop_last() =~= indexes@.take(i as int));
            assert(out@ =~= before + index_lines(kind@, indexes@.take(i + 1)));
        }
        i = i + 1;
    }
    assert(indexes@.take(i as int) =~= indexes@);
}

fn push_indexes(out: &mut String, m: &IndexMemory)
    ensures
        final(out)@ == old(out)@ + indexes_text(*m),
{
    if m.total_bytes > 0 {
        out.append("\n");
        push_size_line(out, "Indexes:         ", m.total_bytes);
        push_index_lines(out, "  vector[", &m.vector_indexes);
        push_index_lines(out, "  text[", &m.text_indexes);
    }
    assert(out@ =~= old(out)@ + indexes_text(*m));
}

fn push_mvcc(out: &mut String, m: &MvccMemory)
    ensures
        final(out)@ == old(out)@ + mvcc_text(*m),
{
    if m.total_bytes > 0 {
        out.append("\n");
        push_size_line(out, "MVCC:            ", m.total_bytes);
        if let Some(depth) = &m.average_chain_depth {
            out.append("  avg chain:     ");
            out.append(depth.as_str());
            out.append("\n");
        }
    }
    assert(out@ =~= old(out)@ + mvcc_text(*m));
}

fn push_caches(out: &mut String, m: &CacheMemory)
    ensures
        final(out)@ == old(out)@ + caches_text(*m),
{
    if m.total_bytes > 0 || m.cached_plan_count > 0 {
        out.append("\n");
        out.append("Caches:          ");
        push_bytes(out, m.total_bytes);
        out.append(" (");
        push_decimal(out, m.cached_plan_count as u64);
        out.append(" plans)\n");
    }
    assert(out@ =~= old(out)@ + caches_text(*m));
}

fn push_string_pool(out: &mut String, m: &StringPoolMemory)
    ensures
        final(out)@ == old(out)@ + string_pool_text(*m),
{
    if m.total_bytes > 0 {
        out.append("\n");
        push_size_line(out, "String pool:     ", m.total_bytes);
    }
    assert(out@ =~= old(out)@ + string_pool_text(*m));
}

fn push_buffer_manager(out: &mut String, m: &BufferManagerMemory)
    ensures
        final(out)@ == old(out)@ + buffer_manager_text(*m),
{
    if m.allocated_bytes > 0 || m.budget_bytes > 0 {
        out.append("\n");
        out.append("Buffer manager:  ");
        push_bytes(out, m.allocated_bytes);
        out.append(" / ");
        push_bytes(out, m.budget_bytes);
        out.append(" budget\n");
    }
    assert(out@ =~= old(out)@ + buffer_manager_text(*m));
}

fn push_rdf(out: &mut String, m: &RdfMemory)
    ensures
        final(out)@ == old(out)@ + rdf_text(*m),
{
    if !m.is_empty() {
        out.append("\n");
        out.append("RDF:             ");
        push_bytes(out, m.total_bytes);
        out.append(" (");
        push_decimal(out, m.triple_count as u64);
        out.append(" triples, ");
        push_decimal(out, m.named_graph_count as u64);
        out.append(" named graphs)\n");
        push_optional_line(out, "  term dict:     ", m.term_dictionary_bytes);
        push_optional_line(out, "  ring index:    ", m.ring_index_bytes);
    }
    assert(out@ =~= old(out)@ + rdf_text(*m));
}

fn push_cdc(out: &mut String, m: &CdcMemory)
    ensures
        final(out)@ == old(out)@ + cdc_text(*m),
{
    if !m.is_empty() {
        out.append("\n");
        out.append("CDC:             ");
        push_bytes(out, m.total_bytes);
        out.append(" (");
        push_decimal(out, m.event_count as u64);
        out.append(" events, ");
        push_decimal(out, m.entity_count as u64);
        out.append(" entities)\n");
    }
    assert(out@ =~= old(out)@ + cdc_text(*m));
}

/// A memory report as text.
#[must_use]
pub fn format_memory(usage: &MemoryUsage) -> (r: String)
    ensures
        r@ == memory_text(*usage),
{
    let mut out: String = String::new();
    push_size_line(&mut out, "Total:           ", usage.total_bytes);
    push_store(&mut out, &usage.store);
    push_indexes(&mut out, &usage.indexes);
    push_mvcc(&mut out, &usage.mvcc);
    push_caches(&mut out, &usage.caches);
    push_string_pool(&mut out, &usage.string_pool);
    push_buffer_manager(&mut out, &usage.buffer_manager);
    push_rdf(&mut out, &usage.rdf);
    push_cdc(&mut out, &usage.cdc);
    assert(out@ =~= memory_text(*usage));
    out
}

} // verus!
