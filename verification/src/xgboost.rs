//! XGBoost as an external control: dumped trees become ordinary patches.
//!
//! XGBoost routes `x < split_condition` to `yes`, `x >= split_condition` to `no`
//! and NaN to `missing`. A patch routes `x > t` right. With `t` the value just
//! below the split condition the two agree, `yes` being left and `no` right. NaN
//! always goes left in a creature, so a node whose missing values go to `no` is
//! rejected unless the caller accepts the divergence.

use vstd::prelude::*;
use vstd::string::*;

use crate::floats::{Double, Single};
use crate::json;
use crate::json::{count, fold, put_field, write_value_pretty, JsonModel, Layer};
use crate::math;
use crate::math::div_ceil;
use crate::patch;
use crate::patch::{Condition, Node, Patch, PatchModel, Provenance, Origin, Rule, Term, Tree};
use crate::text;
use crate::text::{chars_of, decimal_text, parse_size};

verus! {

impl Single {
    /// Negative infinity.
    pub open spec fn is_bottom(self) -> bool {
        self.bits == 0xff80_0000u32
    }

    /// The largest value strictly below, for a value that has one.
    pub open spec fn before(self) -> Single {
        if self.nan() || self.is_bottom() {
            self
        } else if self.num() == 0 {
            Single { bits: 0x8000_0001u32 }
        } else if self.negative() {
            Single { bits: (self.bits + 1) as u32 }
        } else {
            Single { bits: (self.bits - 1) as u32 }
        }
    }
}

/// Largest value strictly below `x` (for finite `x`).
pub fn prev_f32(x: Single) -> (r: Single)
    ensures
        r == x.before(),
{
    if x.is_nan() || x.bits == 0xff80_0000u32 {
        return x;
    }
    if x.eq_value(Single::zero()) {
        return Single { bits: 0x8000_0001u32 };
    }
    if x.bits > 0x8000_0000u32 {
        Single { bits: x.bits + 1 }
    } else {
        Single { bits: x.bits - 1 }
    }
}

/// There is no value between the previous one and `t`: being above the previous
/// one is being at or above `t`.
pub proof fn above_previous_is_at_or_above(x: Single, t: Single)
    requires
        !t.nan(),
        !t.is_bottom(),
    ensures
        t.above(t.before()),
        x.above(t.before()) <==> x.above(t) || x.same_value(t),
{
}

/// One node of an XGBoost dump.
#[derive(Debug, PartialEq)]
pub struct DumpNode {
    /// Node id.
    pub nodeid: u32,
    /// Split feature, written `f12`.
    pub split: Option<String>,
    /// Threshold.
    pub split_condition: Option<Single>,
    /// `yes` child id (`x < split_condition`).
    pub yes: Option<u32>,
    /// `no` child id.
    pub no: Option<u32>,
    /// `missing` child id.
    pub missing: Option<u32>,
    /// Leaf value.
    pub leaf: Option<Single>,
    /// Children.
    pub children: Vec<DumpNode>,
}

/// Why a tree could not be converted.
#[derive(Debug, PartialEq)]
pub struct Rejected {
    /// Tree index in the dump.
    pub tree: usize,
    /// Reason.
    pub reason: String,
}

/// What a [`Rejected`] says.
pub struct Refusal {
    pub tree: int,
    pub reason: Seq<char>,
}

impl View for Rejected {
    type V = Refusal;

    open spec fn view(&self) -> Refusal {
        Refusal { tree: self.tree as int, reason: self.reason@ }
    }
}

/// Position of the first node with an id, from `from` on; the length if there is
/// none.
pub open spec fn first_with_id(nodes: Seq<DumpNode>, id: u32, from: int) -> int
    decreases nodes.len() - from,
{
    if from >= nodes.len() || nodes[from].nodeid == id {
        from
    } else {
        first_with_id(nodes, id, from + 1)
    }
}

/// The feature that a name `fN` names.
pub open spec fn named_feature(name: Seq<char>) -> Option<usize> {
    if name.len() > 0 && name[0] == 'f' {
        text::parsed_size(name.skip(1))
    } else {
        None
    }
}

/// Why a split node cannot be converted, before its children are looked into.
pub open spec fn split_fault(node: DumpNode, allow: bool, input: usize) -> Option<Seq<char>> {
    if node.split is None {
        Some("split node without `split`"@)
    } else if named_feature(node.split->0@) is None {
        Some("cannot parse feature name `"@ + node.split->0@ + "` (expected fN)"@)
    } else if named_feature(node.split->0@)->0 >= input {
        Some(
            "feature "@ + text::decimal(named_feature(node.split->0@)->0 as nat)
                + " >= input width "@ + text::decimal(input as nat),
        )
    } else if node.split_condition is None {
        Some("split node without `split_condition`"@)
    } else if node.yes is None {
        Some("split node without `yes`"@)
    } else if node.no is None {
        Some("split node without `no`"@)
    } else if node.missing is Some && node.missing->0 != node.yes->0 && !allow {
        Some(
            "node "@ + text::decimal(node.nodeid as nat)
                + " routes missing values to the `no` branch; the IF kernel routes NaN left (yes)"@,
        )
    } else if first_with_id(node.children@, node.yes->0, 0) >= node.children@.len() {
        Some("missing yes child"@)
    } else if first_with_id(node.children@, node.no->0, 0) >= node.children@.len() {
        Some("missing no child"@)
    } else {
        None
    }
}

/// The tree that a dump node stands for, or why there is none.
pub open spec fn converted(node: DumpNode, allow: bool, input: usize) -> Result<Tree, Seq<char>>
    decreases node,
{
    if node.leaf is Some {
        Ok(Tree::Leaf { correction: node.leaf->0 })
    } else if split_fault(node, allow, input) is Some {
        Err(split_fault(node, allow, input)->0)
    } else {
        let y = first_with_id(node.children@, node.yes->0, 0);
        let n = first_with_id(node.children@, node.no->0, 0);
        if 0 <= y < node.children@.len() && 0 <= n < node.children@.len() {
            match converted(node.children@[y], allow, input) {
                Err(e) => Err(e),
                Ok(left) => match converted(node.children@[n], allow, input) {
                    Err(e) => Err(e),
                    Ok(right) => Ok(
                        Tree::Split {
                            rule: Rule {
                                terms: seq![
                                    Term {
                                        feature: named_feature(node.split->0@)->0,
                                        weight: Single { bits: crate::floats::SINGLE_ONE },
                                    },
                                ],
                                threshold: node.split_condition->0.before(),
                            },
                            left: Box::new(left),
                            right: Box::new(right),
                        },
                    ),
                },
            }
        } else {
            Err("missing yes child"@)
        }
    }
}

fn find_child(nodes: &Vec<DumpNode>, id: u32) -> (r: usize)
    ensures
        r == first_with_id(nodes@, id, 0),
        r <= nodes@.len(),
{
    let mut i: usize = 0;
    while i < nodes.len() && nodes[i].nodeid != id
        invariant
            i <= nodes@.len(),
            first_with_id(nodes@, id, 0) == first_with_id(nodes@, id, i as int),
        decreases nodes@.len() - i,
    {
        i = i + 1;
    }
    i
}

fn feature_of(name: &String) -> (r: Option<usize>)
    ensures
        r == named_feature(name@),
{
    let chars = chars_of(name.as_str());
    if chars.len() > 0 && chars[0] == 'f' {
        parse_size(&chars, 1)
    } else {
        None
    }
}

fn convert_node(node: &DumpNode, allow: bool, input: usize) -> (r: Result<Node, String>)
    ensures
        match converted(*node, allow, input) {
            Ok(tree) => r matches Ok(n) && n@ == tree,
            Err(why) => r matches Err(e) && e@ == why,
        },
    decreases node,
{
    if let Some(v) = node.leaf {
        return Ok(Node::leaf(v));
    }
    let name = match &node.split {
        Some(s) => s,
        None => {
            return Err("split node without `split`".to_owned());
        },
    };
    let feature: usize = match feature_of(name) {
        Some(f) => f,
        None => {
            let mut m = "cannot parse feature name `".to_owned();
            m.append(name.as_str());
            m.append("` (expected fN)");
            return Err(m);
        },
    };
    if feature >= input {
        let mut m = "feature ".to_owned();
        let f = decimal_text(feature as u64);
        m.append(f.as_str());
        m.append(" >= input width ");
        let w = decimal_text(input as u64);
        m.append(w.as_str());
        return Err(m);
    }
    let t = match node.split_condition {
        Some(t) => t,
        None => {
            return Err("split node without `split_condition`".to_owned());
        },
    };
    let yes: u32 = match node.yes {
        Some(id) => id,
        None => {
            return Err("split node without `yes`".to_owned());
        },
    };
    let no: u32 = match node.no {
        Some(id) => id,
        None => {
            return Err("split node without `no`".to_owned());
        },
    };
    if let Some(m) = node.missing {
        if m != yes && !allow {
            let mut out = "node ".to_owned();
            let id = decimal_text(node.nodeid as u64);
            out.append(id.as_str());
            out.append(
                " routes missing values to the `no` branch; the IF kernel routes NaN left (yes)",
            );
            return Err(out);
        }
    }
    let y: usize = find_child(&node.children, yes);
    if y >= node.children.len() {
        return Err("missing yes child".to_owned());
    }
    let n: usize = find_child(&node.children, no);
    if n >= node.children.len() {
        return Err("missing no child".to_owned());
    }
    let left = match convert_node(&node.children[y], allow, input) {
        Ok(l) => l,
        Err(e) => {
            return Err(e);
        },
    };
    let right = match convert_node(&node.children[n], allow, input) {
        Ok(h) => h,
        Err(e) => {
            return Err(e);
        },
    };
    Ok(
        Node::Split {
            condition: Condition::axis(feature, prev_f32(t)),
            left: Box::new(left),
            right: Box::new(right),
        },
    )
}

/// What XGBoost computes at a node of a convertible dump: NaN follows `missing`
/// (`yes` where the node names none), a value below the split condition follows
/// `yes`, any other follows `no`.
pub open spec fn dump_value(node: DumpNode, row: Seq<Single>) -> Single
    decreases node,
{
    if node.leaf is Some {
        node.leaf->0
    } else {
        let x = patch::input_value(row, named_feature(node.split->0@)->0 as int);
        let id = if x.nan() {
            if node.missing is Some {
                node.missing->0
            } else {
                node.yes->0
            }
        } else if node.split_condition->0.above(x) {
            node.yes->0
        } else {
            node.no->0
        };
        let c = first_with_id(node.children@, id, 0);
        if 0 <= c < node.children@.len() {
            dump_value(node.children@[c], row)
        } else {
            Single { bits: 0 }
        }
    }
}

/// On this record no split of the node compares with NaN, and none compares
/// negative infinity with itself, the one value that has none before it. Where
/// missing values do not follow `yes`, the record's value is not NaN.
pub open spec fn comparable(node: DumpNode, row: Seq<Single>) -> bool
    decreases node,
{
    node.leaf is Some || {
        let x = patch::input_value(row, named_feature(node.split->0@)->0 as int);
        let t = node.split_condition->0;
        &&& !t.nan()
        &&& !(t.is_bottom() && x.is_bottom())
        &&& node.missing is Some && node.missing->0 != node.yes->0 ==> !x.nan()
        &&& forall|c: int|
            0 <= c < node.children@.len() ==> comparable(#[trigger] node.children@[c], row)
    }
}

/// Conversion is exact: the patch gives every record the leaf that XGBoost gives
/// it.
pub proof fn conversion_routes_exactly(
    node: DumpNode,
    allow: bool,
    input: usize,
    row: Seq<Single>,
)
    requires
        converted(node, allow, input) is Ok,
        comparable(node, row),
    ensures
        converted(node, allow, input)->Ok_0.axis_aligned(),
        converted(node, allow, input)->Ok_0.axis_value(row) == dump_value(node, row),
    decreases node,
{
    if node.leaf is None {
        let y = first_with_id(node.children@, node.yes->0, 0);
        let n = first_with_id(node.children@, node.no->0, 0);
        first_with_id_is_in_range(node.children@, node.yes->0, 0);
        first_with_id_is_in_range(node.children@, node.no->0, 0);
        conversion_routes_exactly(node.children@[y], allow, input, row);
        conversion_routes_exactly(node.children@[n], allow, input, row);
        let x = patch::input_value(row, named_feature(node.split->0@)->0 as int);
        let t = node.split_condition->0;
        if !t.is_bottom() {
            above_previous_is_at_or_above(x, t);
        }
        let tree = converted(node, allow, input)->Ok_0;
        assert(tree matches Tree::Split { rule, .. } && rule.axis_holds(row) == x.above(
            t.before(),
        ));
    }
}

proof fn first_with_id_is_in_range(nodes: Seq<DumpNode>, id: u32, from: int)
    requires
        0 <= from <= nodes.len(),
    ensures
        from <= first_with_id(nodes, id, from) <= nodes.len(),
    decreases nodes.len() - from,
{
    if from < nodes.len() {
        first_with_id_is_in_range(nodes, id, from + 1);
    }
}

/// A tree is imported when it converts to something with a split.
pub open spec fn importable(node: DumpNode, allow: bool, input: usize) -> bool {
    converted(node, allow, input) matches Ok(tree) && tree is Split
}

/// Why a tree is not imported.
pub open spec fn import_fault(node: DumpNode, allow: bool, input: usize) -> Seq<char> {
    match converted(node, allow, input) {
        Ok(_) => "tree is a single leaf"@,
        Err(why) => why,
    }
}

/// The patch that tree `i` of a dump becomes.
pub open spec fn imported(
    node: DumpNode,
    i: int,
    input: usize,
    output: usize,
    checksum: Seq<char>,
    allow: bool,
    notes: Seq<Seq<char>>,
) -> PatchModel {
    let numbered = notes.push("xgboost-tree="@ + text::decimal(i as nat));
    PatchModel {
        version: patch::PATCH_FORMAT_VERSION,
        output,
        root: converted(node, allow, input)->Ok_0,
        provenance: Origin {
            strategy: "xgboost-import"@,
            backend: "external:xgboost"@,
            predicted_gain: Double { bits: 0 },
            affected_records: 0,
            search_records: 0,
            incumbent_checksum: checksum,
            seed: None,
            notes: if allow {
                numbered.push("missing-divergence-allowed"@)
            } else {
                numbered
            },
        },
    }
}

/// The patches of the first `n` trees.
pub open spec fn imported_from(
    dump: Seq<DumpNode>,
    n: int,
    input: usize,
    output: usize,
    checksum: Seq<char>,
    allow: bool,
    notes: Seq<Seq<char>>,
) -> Seq<PatchModel>
    decreases n,
{
    if n <= 0 {
        Seq::empty()
    } else {
        let before = imported_from(dump, n - 1, input, output, checksum, allow, notes);
        if importable(dump[n - 1], allow, input) {
            before.push(imported(dump[n - 1], n - 1, input, output, checksum, allow, notes))
        } else {
            before
        }
    }
}

/// The refusals among the first `n` trees.
pub open spec fn refused_from(
    dump: Seq<DumpNode>,
    n: int,
    input: usize,
    allow: bool,
) -> Seq<Refusal>
    decreases n,
{
    if n <= 0 {
        Seq::empty()
    } else {
        let before = refused_from(dump, n - 1, input, allow);
        if importable(dump[n - 1], allow, input) {
            before
        } else {
            before.push(
                Refusal { tree: n - 1, reason: import_fault(dump[n - 1], allow, input) },
            )
        }
    }
}

/// Every tree of a dump is either imported or refused.
pub proof fn every_tree_is_accounted_for(
    dump: Seq<DumpNode>,
    n: int,
    input: usize,
    output: usize,
    checksum: Seq<char>,
    allow: bool,
    notes: Seq<Seq<char>>,
)
    requires
        0 <= n <= dump.len(),
    ensures
        imported_from(dump, n, input, output, checksum, allow, notes).len() + refused_from(
            dump,
            n,
            input,
            allow,
        ).len() == n,
    decreases n,
{
    if n > 0 {
        every_tree_is_accounted_for(dump, n - 1, input, output, checksum, allow, notes);
    }
}

/// Convert every tree of a dump into patches for `output`.
pub fn convert_dump(
    dump: &Vec<DumpNode>,
    input: usize,
    output: usize,
    incumbent_checksum: &str,
    allow_missing_divergence: bool,
    notes: &Vec<String>,
) -> (r: (Vec<Patch>, Vec<Rejected>))
    ensures
        patch::patch_models(r.0@) == imported_from(
            dump@,
            dump@.len() as int,
            input,
            output,
            incumbent_checksum@,
            allow_missing_divergence,
            text::texts(notes@),
        ),
        r.1@.map_values(|x: Rejected| x@) == refused_from(
            dump@,
            dump@.len() as int,
            input,
            allow_missing_divergence,
        ),
{
    let mut patches: Vec<Patch> = Vec::new();
    let mut rejected: Vec<Rejected> = Vec::new();
    let ghost allow = allow_missing_divergence;
    let ghost given = text::texts(notes@);
    proof {
        assert(patch::patch_models(patches@) =~= Seq::empty());
        assert(rejected@.map_values(|x: Rejected| x@) =~= Seq::empty());
    }
    for i in 0..dump.len()
        invariant
            allow == allow_missing_divergence,
            given == text::texts(notes@),
            patch::patch_models(patches@) == imported_from(
                dump@,
                i as int,
                input,
                output,
                incumbent_checksum@,
                allow,
                given,
            ),
            rejected@.map_values(|x: Rejected| x@) == refused_from(dump@, i as int, input, allow),
    {
        let ghost patches_before = patches@;
        let ghost rejected_before = rejected@;
        match convert_node(&dump[i], allow_missing_divergence, input) {
            Ok(root) => {
                if let Node::Leaf { .. } = root {
                    rejected.push(
                        Rejected { tree: i, reason: "tree is a single leaf".to_owned() },
                    );
                } else {
                    let mut n = notes.clone();
                    assert(text::texts(n@) =~= given);
                    let mut label = "xgboost-tree=".to_owned();
                    let index = decimal_text(i as u64);
                    label.append(index.as_str());
                    n.push(label);
                    if allow_missing_divergence {
                        n.push("missing-divergence-allowed".to_owned());
                    }
                    let provenance = Provenance {
                        strategy: "xgboost-import".to_owned(),
                        backend: "external:xgboost".to_owned(),
                        predicted_gain: Double::zero(),
                        affected_records: 0,
                        search_records: 0,
                        incumbent_checksum: incumbent_checksum.to_owned(),
                        seed: None,
                        notes: n,
                    };
                    let p = Patch::new(output, root, provenance);
                    proof {
                        let want = imported(
                            dump@[i as int],
                            i as int,
                            input,
                            output,
                            incumbent_checksum@,
                            allow,
                            given,
                        );
                        assert(p@.provenance.notes =~= want.provenance.notes);
                        assert(p@ == want);
                    }
                    patches.push(p);
                }
            },
            Err(reason) => {
                rejected.push(Rejected { tree: i, reason });
            },
        }
        proof {
            let patches_then = imported_from(
                dump@,
                i as int + 1,
                input,
                output,
                incumbent_checksum@,
                allow,
                given,
            );
            assert(patch::patch_models(patches@) =~= patches_then);
            assert(rejected@.map_values(|x: Rejected| x@) =~= refused_from(
                dump@,
                i as int + 1,
                input,
                allow,
            ));
        }
    }
    (patches, rejected)
}

/// Every `stride`-th record is exported; zero `max_records` exports all.
pub fn export_stride(total: u64, max_records: u64) -> (r: u64)
    ensures
        r >= 1,
        r == (if max_records == 0 || total == 0 {
            1int
        } else {
            math::ceil_div(total as int, max_records as int)
        }),
{
    if max_records == 0 {
        1
    } else {
        proof {
            math::ceil_div_by_remainder(total as int, max_records as int);
        }
        let s: u64 = div_ceil(total, max_records);
        if s < 1 {
            1
        } else {
            s
        }
    }
}

/// `true` when a record is exported.
pub fn is_exported(index: u64, stride: u64) -> (r: bool)
    requires
        stride > 0,
    ensures
        r == (index as int % stride as int == 0),
{
    index % stride == 0
}

/// The names of the first `n` features, each followed by a comma.
pub open spec fn feature_columns(n: nat) -> Seq<char>
    decreases n,
{
    if n == 0 {
        Seq::empty()
    } else {
        feature_columns((n - 1) as nat) + "f"@ + text::decimal((n - 1) as nat) + ","@
    }
}

/// The header of the exported matrix.
pub fn matrix_header(input: usize) -> (r: String)
    ensures
        r@ == feature_columns(input as nat) + "residual,correction"@,
{
    let mut out = String::new();
    for i in 0..input
        invariant
            out@ == feature_columns(i as nat),
    {
        out.append("f");
        let n = decimal_text(i as u64);
        out.append(n.as_str());
        out.append(",");
    }
    out.append("residual,correction");
    out
}

/// The first `n` cells, each followed by a comma.
pub open spec fn leading_cells(cells: Seq<String>, n: int) -> Seq<char>
    decreases n,
{
    if n <= 0 {
        Seq::empty()
    } else {
        leading_cells(cells, n - 1) + cells[n - 1]@ + ","@
    }
}

/// A line of the exported matrix: a record's inputs, its residual and its
/// correction.
pub fn matrix_line(inputs: &Vec<String>, residual: &str, correction: &str) -> (r: String)
    ensures
        r@ == leading_cells(inputs@, inputs@.len() as int) + residual@ + ","@ + correction@,
{
    let mut out = String::new();
    for i in 0..inputs.len()
        invariant
            out@ == leading_cells(inputs@, i as int),
    {
        out.append(inputs[i].as_str());
        out.append(",");
    }
    out.append(residual);
    out.append(",");
    out.append(correction);
    out
}

/// What is said of an exported matrix.
pub struct MatrixMeta {
    /// Checksum of the incumbent that the residuals are of.
    pub incumbent_checksum: String,
    /// Identity of the corpus.
    pub corpus_identity: String,
    /// Records of the corpus.
    pub corpus_records: u64,
    /// Records of the matrix.
    pub exported_records: u64,
    /// Stride between exported records.
    pub stride: u64,
    /// Output that the residuals are of.
    pub output: u64,
    /// Squash of that output, when it is known.
    pub output_squash: Option<String>,
    /// When the matrix was written.
    pub created_at_unix: u64,
}

/// The column to train on.
pub const MATRIX_TARGET: &'static str = "correction (pre-squash residual; train XGBoost on this column with base_score=0)";

impl MatrixMeta {
    /// The document beside an exported matrix.
    pub open spec fn document(&self) -> Map<Seq<char>, JsonModel> {
        map![
            "incumbentChecksum"@ => JsonModel::Text(self.incumbent_checksum@),
            "corpusIdentity"@ => JsonModel::Text(self.corpus_identity@),
            "corpusRecords"@ => JsonModel::Scalar(text::decimal(self.corpus_records as nat)),
            "exportedRecords"@ => JsonModel::Scalar(text::decimal(self.exported_records as nat)),
            "stride"@ => JsonModel::Scalar(text::decimal(self.stride as nat)),
            "output"@ => JsonModel::Scalar(text::decimal(self.output as nat)),
            "outputSquash"@ => match self.output_squash {
                Some(name) => JsonModel::Text(name@),
                None => JsonModel::Scalar("null"@),
            },
            "target"@ => JsonModel::Text(MATRIX_TARGET@),
            "createdAtUnix"@ => JsonModel::Scalar(text::decimal(self.created_at_unix as nat)),
        ]
    }

    /// The text of the document beside an exported matrix.
    pub fn to_json(&self) -> (r: Result<String, String>)
        ensures
            match r {
                Ok(text) => text@ == json::json_pretty_text(JsonModel::Object(self.document())),
                Err(_) => false,
            },
    {
        let mut fields: Vec<(String, serde_json::Value)> = Vec::new();
        let checksum = self.incumbent_checksum.clone();
        put_field(&mut fields, "incumbentChecksum", fold(Layer::Text(checksum)));
        put_field(&mut fields, "corpusIdentity", fold(Layer::Text(self.corpus_identity.clone())));
        put_field(&mut fields, "corpusRecords", count(self.corpus_records));
        put_field(&mut fields, "exportedRecords", count(self.exported_records));
        put_field(&mut fields, "stride", count(self.stride));
        put_field(&mut fields, "output", count(self.output));
        let squash = match &self.output_squash {
            Some(name) => Layer::Text(name.clone()),
            None => Layer::Null,
        };
        put_field(&mut fields, "outputSquash", fold(squash));
        put_field(&mut fields, "target", fold(Layer::Text(MATRIX_TARGET.to_owned())));
        put_field(&mut fields, "createdAtUnix", count(self.created_at_unix));
        assert(json::object_of(fields@) == self.document());
        write_value_pretty(&fold(Layer::Object(fields)))
    }
}

proof fn first_with_id_is_first(nodes: Seq<DumpNode>, id: u32, from: int)
    requires
        0 <= from <= nodes.len(),
    ensures
        from <= first_with_id(nodes, id, from) <= nodes.len(),
        first_with_id(nodes, id, from) < nodes.len() ==> nodes[first_with_id(
            nodes,
            id,
            from,
        )].nodeid == id,
        forall|k: int|
            from <= k < first_with_id(nodes, id, from) ==> (#[trigger] nodes[k]).nodeid != id,
    decreases nodes.len() - from,
{
    if from < nodes.len() && nodes[from].nodeid != id {
        first_with_id_is_first(nodes, id, from + 1);
    }
}

/// The name of a feature is read back: `f` and its number.
pub proof fn feature_names_read_back(n: usize)
    ensures
        named_feature("f"@ + text::decimal(n as nat)) == Some(n),
{
    reveal_strlit("f");
    let name = "f"@ + text::decimal(n as nat);
    assert(name.skip(1) =~= text::decimal(n as nat));
    text::decimal_reads_back(n as nat);
    assert(text::decimal(n as nat)[0] != '+');
}

/// A converted split stands for its node: the feature that the node names, which
/// the creature has, the child that the node calls `yes` on the left and the one it
/// calls `no` on the right. Unless the caller accepts it, missing values do not go
/// to the right.
pub proof fn converted_splits_stand_for_their_nodes(node: DumpNode, allow: bool, input: usize)
    requires
        converted(node, allow, input) is Ok,
        node.leaf is None,
    ensures
        ({
            let tree = converted(node, allow, input)->Ok_0;
            &&& tree matches Tree::Split { rule, left, right } && {
                &&& rule.terms.len() == 1
                &&& rule.terms[0].weight.bits == crate::floats::SINGLE_ONE
                &&& rule.terms[0].feature < input
                &&& node.split matches Some(name) && named_feature(name@) == Some(
                    rule.terms[0].feature,
                )
                &&& node.split_condition matches Some(t) && rule.threshold == t.before()
                &&& exists|y: int|
                    0 <= y < node.children@.len() && Some((#[trigger] node.children@[y]).nodeid)
                        == node.yes && converted(node.children@[y], allow, input) == Ok::<
                        Tree,
                        Seq<char>,
                    >(*left)
                &&& exists|n: int|
                    0 <= n < node.children@.len() && Some((#[trigger] node.children@[n]).nodeid)
                        == node.no && converted(node.children@[n], allow, input) == Ok::<
                        Tree,
                        Seq<char>,
                    >(*right)
            }
            &&& !allow && node.missing is Some ==> node.missing == node.yes
        }),
{
    first_with_id_is_first(node.children@, node.yes->0, 0);
    first_with_id_is_first(node.children@, node.no->0, 0);
    let y = first_with_id(node.children@, node.yes->0, 0);
    let n = first_with_id(node.children@, node.no->0, 0);
    assert(node.children@[y].nodeid == node.yes->0);
    assert(node.children@[n].nodeid == node.no->0);
}

/// A leaf is converted whatever else the node says, and keeps its value.
pub proof fn leaves_keep_their_value(node: DumpNode, allow: bool, input: usize)
    requires
        node.leaf is Some,
    ensures
        converted(node, allow, input) matches Ok(tree) && tree == (Tree::Leaf {
            correction: node.leaf->0,
        }),
{
}

/// The patch is what tree `i` of the dump became: for the output, with the tree's
/// number in its notes, and marked as searched by nobody here.
pub open spec fn is_import_of(
    p: PatchModel,
    node: DumpNode,
    i: int,
    input: usize,
    output: usize,
    checksum: Seq<char>,
    allow: bool,
) -> bool {
    &&& p.output == output
    &&& p.version == 1
    &&& converted(node, allow, input) == Ok::<Tree, Seq<char>>(p.root)
    &&& p.root.splits() > 0
    &&& p.provenance.strategy == "xgboost-import"@
    &&& p.provenance.backend == "external:xgboost"@
    &&& p.provenance.incumbent_checksum == checksum
    &&& p.provenance.seed is None
    &&& p.provenance.predicted_gain.bits == 0
    &&& p.provenance.affected_records == 0
    &&& p.provenance.search_records == 0
    &&& p.provenance.notes.contains("xgboost-tree="@ + text::decimal(i as nat))
    &&& allow ==> p.provenance.notes.contains("missing-divergence-allowed"@)
}

/// Tree `i` of the dump became one of the patches.
pub open spec fn is_imported_among(
    patches: Seq<PatchModel>,
    node: DumpNode,
    i: int,
    input: usize,
    output: usize,
    checksum: Seq<char>,
    allow: bool,
) -> bool {
    exists|k: int|
        0 <= k < patches.len() && #[trigger] is_import_of(
            patches[k],
            node,
            i,
            input,
            output,
            checksum,
            allow,
        )
}

/// Every tree of a dump that converts to something with a split becomes a patch of
/// its own, and every other one is refused under its own number.
pub proof fn trees_keep_their_numbers(
    dump: Seq<DumpNode>,
    n: int,
    input: usize,
    output: usize,
    checksum: Seq<char>,
    allow: bool,
    notes: Seq<Seq<char>>,
    i: int,
)
    requires
        0 <= i < n <= dump.len(),
    ensures
        (converted(dump[i], allow, input) matches Ok(tree) && tree.splits() > 0)
            ==> is_imported_among(
            imported_from(dump, n, input, output, checksum, allow, notes),
            dump[i],
            i,
            input,
            output,
            checksum,
            allow,
        ),
        !(converted(dump[i], allow, input) matches Ok(tree) && tree.splits() > 0) ==> exists|k: int|
            0 <= k < refused_from(dump, n, input, allow).len() && (#[trigger] refused_from(
                dump,
                n,
                input,
                allow,
            )[k]).tree == i,
    decreases n,
{
    let before = imported_from(dump, n - 1, input, output, checksum, allow, notes);
    let all = imported_from(dump, n, input, output, checksum, allow, notes);
    let refused = refused_from(dump, n - 1, input, allow);
    let told = refused_from(dump, n, input, allow);
    if i < n - 1 {
        trees_keep_their_numbers(dump, n - 1, input, output, checksum, allow, notes, i);
        if converted(dump[i], allow, input) matches Ok(tree) && tree.splits() > 0 {
            let k = choose|k: int|
                0 <= k < before.len() && #[trigger] is_import_of(
                    before[k],
                    dump[i],
                    i,
                    input,
                    output,
                    checksum,
                    allow,
                );
            assert(all[k] == before[k]);
            assert(is_import_of(all[k], dump[i], i, input, output, checksum, allow));
        } else {
            let k = choose|k: int| 0 <= k < refused.len() && (#[trigger] refused[k]).tree == i;
            assert(told[k] == refused[k]);
        }
    } else {
        if importable(dump[i], allow, input) {
            let p = imported(dump[i], i, input, output, checksum, allow, notes);
            let numbered = notes.push("xgboost-tree="@ + text::decimal(i as nat));
            assert(numbered[notes.len() as int] == "xgboost-tree="@ + text::decimal(i as nat));
            assert(p.provenance.notes[notes.len() as int] == "xgboost-tree="@ + text::decimal(
                i as nat,
            ));
            if allow {
                assert(p.provenance.notes[notes.len() as int + 1] == "missing-divergence-allowed"@);
            }
            assert(all[before.len() as int] == p);
            assert(is_import_of(
                all[before.len() as int],
                dump[i],
                i,
                input,
                output,
                checksum,
                allow,
            ));
        } else {
            assert(told[refused.len() as int].tree == i);
        }
    }
}

/// How many commas a text holds.
pub open spec fn commas(s: Seq<char>) -> nat {
    s.filter(|c: char| c == ',').len()
}

proof fn commas_add_up(a: Seq<char>, b: Seq<char>)
    ensures
        commas(a + b) == commas(a) + commas(b),
    decreases b.len(),
{
    reveal(Seq::filter);
    if b.len() == 0 {
        assert(a + b =~= a);
    } else {
        commas_add_up(a, b.drop_last());
        assert((a + b).drop_last() =~= a + b.drop_last());
        assert((a + b).last() == b.last());
    }
}

proof fn plain_texts_have_no_comma(s: Seq<char>)
    requires
        forall|i: int| 0 <= i < s.len() ==> #[trigger] s[i] != ',',
    ensures
        commas(s) == 0,
    decreases s.len(),
{
    reveal(Seq::filter);
    if s.len() > 0 {
        plain_texts_have_no_comma(s.drop_last());
    }
}

/// The header of a matrix has a column for every feature, and two more.
pub proof fn headers_have_a_column_per_feature(n: nat)
    ensures
        commas(feature_columns(n) + "residual,correction"@) == n + 1,
{
    commas_per_feature(n);
    commas_add_up(feature_columns(n), "residual,correction"@);
    reveal_strlit("residual,correction");
    reveal_strlit("residual");
    reveal_strlit(",");
    reveal_strlit("correction");
    let tail = "residual,correction"@;
    assert(tail =~= "residual"@ + ","@ + "correction"@);
    plain_texts_have_no_comma("residual"@);
    plain_texts_have_no_comma("correction"@);
    one_comma();
    commas_add_up("residual"@, ","@);
    commas_add_up("residual"@ + ","@, "correction"@);
}

proof fn one_comma()
    ensures
        commas(","@) == 1,
{
    reveal_strlit(",");
    reveal(Seq::filter);
    let s = ","@;
    assert(s.drop_last() =~= Seq::<char>::empty());
    plain_texts_have_no_comma(s.drop_last());
    assert(s.last() == ',');
}

proof fn commas_per_feature(n: nat)
    ensures
        commas(feature_columns(n)) == n,
    decreases n,
{
    if n == 0 {
        plain_texts_have_no_comma(feature_columns(n));
    } else {
        let before = feature_columns((n - 1) as nat);
        let number = text::decimal((n - 1) as nat);
        commas_per_feature((n - 1) as nat);
        reveal_strlit("f");
        plain_texts_have_no_comma("f"@);
        text::decimal_reads_back((n - 1) as nat);
        plain_texts_have_no_comma(number);
        one_comma();
        commas_add_up(before, "f"@);
        commas_add_up(before + "f"@, number);
        commas_add_up(before + "f"@ + number, ","@);
    }
}

/// A line of a matrix has as many columns as its header, when no cell holds a
/// comma.
pub proof fn lines_have_a_column_per_feature(
    cells: Seq<String>,
    residual: Seq<char>,
    correction: Seq<char>,
)
    requires
        forall|i: int| 0 <= i < cells.len() ==> commas(#[trigger] cells[i]@) == 0,
        commas(residual) == 0,
        commas(correction) == 0,
    ensures
        commas(
            leading_cells(cells, cells.len() as int) + residual + ","@ + correction,
        ) == cells.len() + 1,
{
    let leading = leading_cells(cells, cells.len() as int);
    commas_per_cell(cells, cells.len() as int);
    one_comma();
    commas_add_up(leading, residual);
    commas_add_up(leading + residual, ","@);
    commas_add_up(leading + residual + ","@, correction);
}

proof fn commas_per_cell(cells: Seq<String>, n: int)
    requires
        0 <= n <= cells.len(),
        forall|i: int| 0 <= i < cells.len() ==> commas(#[trigger] cells[i]@) == 0,
    ensures
        commas(leading_cells(cells, n)) == n,
    decreases n,
{
    if n == 0 {
        plain_texts_have_no_comma(leading_cells(cells, n));
    } else {
        commas_per_cell(cells, n - 1);
        one_comma();
        commas_add_up(leading_cells(cells, n - 1), cells[n - 1]@);
        commas_add_up(leading_cells(cells, n - 1) + cells[n - 1]@, ","@);
    }
}

} // verus!
