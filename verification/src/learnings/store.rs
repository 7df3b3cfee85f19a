//! Where records live: one JSON Lines file per corpus and host.

use vstd::prelude::*;
use vstd::string::*;

use crate::learnings::prune::PruneOutcome;
use crate::ranking;
use crate::ranking::Ranked;
use crate::text;
use crate::text::{
    chars_from, chars_of, decimal_text, is_text_before, path_join, starts_with, trim,
};

verus! {

/// A corpus identity, as the store files it.
///
/// Its own type so it cannot be passed where a [`HostName`] belongs.
#[derive(Debug)]
pub struct CorpusId {
    /// The identity as given.
    pub text: String,
}

impl CorpusId {
    /// Wrap a corpus identity.
    pub fn new(id: &str) -> (r: CorpusId)
        ensures
            r.text@ == id@,
    {
        CorpusId { text: id.to_owned() }
    }

    /// The identity as given.
    pub fn as_str(&self) -> (r: &str)
        ensures
            r@ == self.text@,
    {
        self.text.as_str()
    }
}

/// The host a store writes as.
///
/// Its own type so it cannot be passed where a [`CorpusId`] belongs.
#[derive(Debug)]
pub struct HostName {
    /// The name as given.
    pub text: String,
}

impl HostName {
    /// Wrap a host name.
    pub fn new(name: &str) -> (r: HostName)
        ensures
            r.text@ == name@,
    {
        HostName { text: name.to_owned() }
    }

    /// The name as given.
    pub fn as_str(&self) -> (r: &str)
        ensures
            r@ == self.text@,
    {
        self.text.as_str()
    }
}

/// A character that is safe in a path component. The dot is not: it is the only
/// one that could turn a name into `..`.
pub open spec fn is_safe(c: char) -> bool {
    ('a' <= c <= 'z') || ('A' <= c <= 'Z') || ('0' <= c <= '9') || c == '-' || c == '_'
}

/// The text with every unsafe character turned into a hyphen.
pub open spec fn cleaned(s: Seq<char>) -> Seq<char> {
    s.map_values(
        |c: char|
            if is_safe(c) {
                c
            } else {
                '-'
            },
    )
}

/// A path component: safe characters only, no hyphen at either end, never empty.
pub open spec fn sanitised(s: Seq<char>) -> Seq<char> {
    let inner = text::trimmed(cleaned(s), |c: char| c == '-');
    if inner.len() == 0 {
        "unknown"@
    } else {
        inner
    }
}

fn safe(c: char) -> (r: bool)
    ensures
        r == is_safe(c),
{
    ('a' <= c && c <= 'z') || ('A' <= c && c <= 'Z') || ('0' <= c && c <= '9') || c == '-' || c
        == '_'
}

/// Keep a path component to characters that are safe on every filesystem and
/// legible in a diff.
pub fn sanitise(s: &str) -> (r: String)
    ensures
        r@ == sanitised(s@),
{
    let chars = chars_of(s);
    let ghost clean = cleaned(s@);
    let ghost drop = |c: char| c == '-';
    let mut start: usize = 0;
    assert(clean.skip(0) =~= clean);
    while start < chars.len() && (chars[start] == '-' || !safe(chars[start]))
        invariant
            chars@ == s@,
            clean == cleaned(s@),
            drop == (|c: char| c == '-'),
            start <= chars@.len(),
            text::trimmed_start(clean, drop) == text::trimmed_start(
                clean.skip(start as int),
                drop,
            ),
        decreases chars@.len() - start,
    {
        assert(clean.skip(start as int).drop_first() =~= clean.skip(start as int + 1));
        start = start + 1;
    }
    let ghost rest = clean.skip(start as int);
    assert(text::trimmed_start(rest, drop) == rest);
    let mut end: usize = chars.len();
    assert(clean.subrange(start as int, end as int) =~= rest);
    while end > start && (chars[end - 1] == '-' || !safe(chars[end - 1]))
        invariant
            chars@ == s@,
            clean == cleaned(s@),
            drop == (|c: char| c == '-'),
            start <= end <= chars@.len(),
            text::trimmed_end(rest, drop) == text::trimmed_end(
                clean.subrange(start as int, end as int),
                drop,
            ),
        decreases end - start,
    {
        assert(clean.subrange(start as int, end as int).drop_last() =~= clean.subrange(
            start as int,
            end as int - 1,
        ));
        end = end - 1;
    }
    if start == end {
        assert(clean.subrange(start as int, end as int).len() == 0);
        return "unknown".to_owned();
    }
    let mut out = String::new();
    for i in start..end
        invariant
            chars@ == s@,
            clean == cleaned(s@),
            start <= i <= end <= chars@.len(),
            out@ == clean.subrange(start as int, i as int),
    {
        if safe(chars[i]) {
            out.push(chars[i]);
        } else {
            out.push('-');
        }
        assert(out@ =~= clean.subrange(start as int, i as int + 1));
    }
    out
}

/// The shared directory, scoped to one corpus and one host.
#[derive(Debug)]
pub struct LearningsStore {
    /// Root directory.
    pub root: String,
    /// Corpus.
    pub corpus: CorpusId,
    /// Host.
    pub host: HostName,
}

impl LearningsStore {
    /// Directory of this corpus.
    pub open spec fn directory(&self) -> Seq<char> {
        text::path_text(self.root@, "corpus-"@ + sanitised(self.corpus.text@))
    }

    /// A store rooted at `root` for `corpus`, writing as `host`.
    pub fn new(root: &str, corpus: CorpusId, host: HostName) -> (r: LearningsStore)
        ensures
            r.root@ == root@,
            r.corpus == corpus,
            r.host == host,
    {
        LearningsStore { root: root.to_owned(), corpus, host }
    }

    /// The name this store files records under.
    pub fn host(&self) -> (r: &str)
        ensures
            r@ == self.host.text@,
    {
        self.host.as_str()
    }

    /// Directory holding every host's file for this corpus.
    pub fn corpus_dir(&self) -> (r: String)
        ensures
            r@ == self.directory(),
    {
        let mut name = "corpus-".to_owned();
        name.append(sanitise(self.corpus.as_str()).as_str());
        path_join(self.root.as_str(), name.as_str())
    }

    /// This host's append-only file.
    pub fn file(&self) -> (r: String)
        ensures
            r@ == text::path_text(
                self.directory(),
                sanitised(self.host.text@) + ".jsonl"@,
            ),
    {
        let mut name = sanitise(self.host.as_str());
        name.append(".jsonl");
        path_join(self.corpus_dir().as_str(), name.as_str())
    }
}

proof fn trimming_leaves_a_middle(s: Seq<char>, drop: spec_fn(char) -> bool)
    ensures
        exists|a: int, b: int|
            0 <= a <= b <= s.len() && #[trigger] s.subrange(a, b) == text::trimmed(s, drop),
{
    start_trims_a_prefix(s, drop);
    let a = choose|a: int| 0 <= a <= s.len() && #[trigger] s.skip(a) == text::trimmed_start(s, drop);
    end_trims_a_suffix(s.skip(a), drop);
    let n = choose|n: int|
        0 <= n <= s.skip(a).len() && #[trigger] s.skip(a).take(n) == text::trimmed_end(
            s.skip(a),
            drop,
        );
    assert(s.skip(a).take(n) =~= s.subrange(a, a + n));
}

proof fn start_trims_a_prefix(s: Seq<char>, drop: spec_fn(char) -> bool)
    ensures
        exists|a: int|
            0 <= a <= s.len() && #[trigger] s.skip(a) == text::trimmed_start(s, drop),
        text::trimmed_start(s, drop).len() > 0 ==> !drop(text::trimmed_start(s, drop)[0]),
    decreases s.len(),
{
    if s.len() > 0 && drop(s[0]) {
        start_trims_a_prefix(s.drop_first(), drop);
        let a = choose|a: int|
            0 <= a <= s.drop_first().len() && #[trigger] s.drop_first().skip(a)
                == text::trimmed_start(s.drop_first(), drop);
        assert(s.drop_first().skip(a) =~= s.skip(a + 1));
    } else {
        assert(s.skip(0) =~= s);
    }
}

proof fn end_trims_a_suffix(s: Seq<char>, drop: spec_fn(char) -> bool)
    ensures
        exists|n: int| 0 <= n <= s.len() && #[trigger] s.take(n) == text::trimmed_end(s, drop),
        text::trimmed_end(s, drop).len() > 0 ==> !drop(text::trimmed_end(s, drop).last()),
    decreases s.len(),
{
    if s.len() > 0 && drop(s.last()) {
        end_trims_a_suffix(s.drop_last(), drop);
        let n = choose|n: int|
            0 <= n <= s.drop_last().len() && #[trigger] s.drop_last().take(n)
                == text::trimmed_end(s.drop_last(), drop);
        assert(s.drop_last().take(n) =~= s.take(n));
    } else {
        assert(s.take(s.len() as int) =~= s);
    }
}

/// A sanitised name is never empty and holds safe characters only: neither a
/// dot nor a separator.
pub proof fn sanitised_names_are_safe(s: Seq<char>)
    ensures
        sanitised(s).len() > 0,
        forall|i: int| 0 <= i < sanitised(s).len() ==> is_safe(#[trigger] sanitised(s)[i]),
{
    reveal_strlit("unknown");
    let clean = cleaned(s);
    let drop = |c: char| c == '-';
    trimming_leaves_a_middle(clean, drop);
    let (a, b) = choose|a: int, b: int|
        0 <= a <= b <= clean.len() && #[trigger] clean.subrange(a, b) == text::trimmed(clean, drop);
    let inner = text::trimmed(clean, drop);
    assert forall|i: int| 0 <= i < sanitised(s).len() implies is_safe(
        #[trigger] sanitised(s)[i],
    ) by {
        if inner.len() > 0 {
            assert(inner[i] == clean[a + i]);
        }
    }
}

/// Sanitising is idempotent: a name read back off a directory addresses the same
/// directory.
pub proof fn sanitising_twice_changes_nothing(s: Seq<char>)
    ensures
        sanitised(sanitised(s)) == sanitised(s),
{
    reveal_strlit("unknown");
    let once = sanitised(s);
    let drop = |c: char| c == '-';
    sanitised_names_are_safe(s);
    assert(cleaned(once) =~= once);
    let clean = cleaned(s);
    let inner = text::trimmed(clean, drop);
    let rest = text::trimmed_start(clean, drop);
    start_trims_a_prefix(clean, drop);
    end_trims_a_suffix(rest, drop);
    if inner.len() > 0 {
        let n = choose|n: int|
            0 <= n <= rest.len() && #[trigger] rest.take(n) == text::trimmed_end(rest, drop);
        assert(inner[0] == rest[0]);
        assert(!drop(once[0]) && !drop(once.last()));
    } else {
        assert(once[0] == 'u');
        assert(once.last() == 'n');
    }
    assert(text::trimmed_start(once, drop) == once);
    assert(text::trimmed_end(once, drop) == once);
}

/// The corpus that a directory name stands for.
pub open spec fn corpus_of(name: Seq<char>) -> Option<Seq<char>> {
    if text::has_prefix(name, "corpus-"@) {
        Some(name.skip("corpus-"@.len() as int))
    } else {
        None
    }
}

/// The corpus that a directory name stands for.
pub fn corpus_name(name: &str) -> (r: Option<String>)
    ensures
        match r {
            Some(corpus) => corpus_of(name@) == Some(corpus@),
            None => corpus_of(name@) is None,
        },
{
    if starts_with(name, "corpus-") {
        Some(chars_from(name, "corpus-".unicode_len()))
    } else {
        None
    }
}

/// The name of a store's directory is read back as the sanitised corpus.
pub proof fn corpus_directory_reads_back(corpus: Seq<char>)
    ensures
        corpus_of("corpus-"@ + sanitised(corpus)) == Some(sanitised(corpus)),
{
    let name = "corpus-"@ + sanitised(corpus);
    assert(name.take("corpus-"@.len() as int) =~= "corpus-"@);
    assert(name.skip("corpus-"@.len() as int) =~= sanitised(corpus));
}

/// What a host is called: the first of the given names that is not blank,
/// without white space around it, else `unknown`.
pub open spec fn host_name(names: Seq<Option<String>>) -> Seq<char>
    decreases names.len(),
{
    if names.len() == 0 {
        "unknown"@
    } else if names[0] is Some && text::bare(names[0]->0@).len() > 0 {
        text::bare(names[0]->0@)
    } else {
        host_name(names.drop_first())
    }
}

/// This machine's name, from the places that may hold one, in order of trust.
pub fn host_from(names: &Vec<Option<String>>) -> (r: String)
    ensures
        r@ == host_name(names@),
        r@.len() > 0,
{
    assert(names@.skip(0) =~= names@);
    for i in 0..names.len()
        invariant
            host_name(names@) == host_name(names@.skip(i as int)),
    {
        proof {
            assert(names@.skip(i as int)[0] == names@[i as int]);
            assert(names@.skip(i as int).drop_first() =~= names@.skip(i as int + 1));
        }
        if let Some(name) = &names[i] {
            let bare = trim(name.as_str());
            if bare.as_str().unicode_len() > 0 {
                return bare;
            }
        }
    }
    proof {
        reveal_strlit("unknown");
    }
    "unknown".to_owned()
}

/// Message when a file grew while it was being pruned.
pub open spec fn grew_text(path: Seq<char>, before: nat, after: nat) -> Seq<char> {
    path + " grew from "@ + text::decimal(before) + " to "@ + text::decimal(after)
        + " bytes while pruning; run it when this host is idle"@
}

/// A file may be replaced only when its length has not changed meanwhile: lines
/// appended in between would be lost.
pub fn check_unchanged(path: &str, before: u64, after: u64) -> (r: Result<(), String>)
    ensures
        match r {
            Ok(()) => before == after,
            Err(message) => before != after && message@ == grew_text(
                path@,
                before as nat,
                after as nat,
            ),
        },
{
    if before == after {
        Ok(())
    } else {
        let mut message = path.to_owned();
        message.append(" grew from ");
        message.append(decimal_text(before).as_str());
        message.append(" to ");
        message.append(decimal_text(after).as_str());
        message.append(" bytes while pruning; run it when this host is idle");
        Err(message)
    }
}

/// A name in a directory.
#[derive(Debug)]
pub struct ListedName {
    /// The name.
    pub text: String,
}

impl Ranked for ListedName {
    /// The name that comes first.
    open spec fn ahead(&self, other: &ListedName) -> bool {
        text::text_before(self.text@, other.text@)
    }

    proof fn ahead_is_asymmetric(a: ListedName, b: ListedName) {
        text::text_before_is_asymmetric(a.text@, b.text@);
    }

    proof fn not_ahead_is_transitive(a: ListedName, b: ListedName, c: ListedName) {
        text::not_text_before_is_transitive(a.text@, b.text@, c.text@);
    }

    fn is_ahead(&self, other: &ListedName) -> (r: bool) {
        is_text_before(self.text.as_str(), other.text.as_str())
    }
}

/// The texts of names.
pub open spec fn name_texts(names: Seq<ListedName>) -> Seq<Seq<char>> {
    names.map_values(|n: ListedName| n.text@)
}

/// `r` holds the texts of `all`, each as often as there, in ascending order.
pub open spec fn is_sorted_form(all: Seq<Seq<char>>, r: Seq<Seq<char>>) -> bool {
    exists|names: Seq<ListedName>| #[trigger]
        name_texts(names) == all && r == name_texts(ranking::sorted(names))
}

/// Texts in ascending order.
fn sort_texts(all: Vec<String>) -> (r: Vec<String>)
    ensures
        is_sorted_form(text::texts(all@), text::texts(r@)),
{
    let n: usize = all.len();
    let mut names: Vec<ListedName> = Vec::new();
    for i in 0..n
        invariant
            n == all@.len(),
            name_texts(names@) == text::texts(all@).take(i as int),
    {
        let ghost before = names@;
        let name = ListedName { text: all[i].clone() };
        names.push(name);
        assert(name_texts(names@) =~= name_texts(before).push(name.text@));
        assert(text::texts(all@).take(i as int + 1) =~= text::texts(all@).take(i as int).push(
            all@[i as int]@,
        ));
    }
    assert(name_texts(names@) =~= text::texts(all@));
    let order = ranking::ranking(&names);
    let ghost want = ranking::sorted(names@);
    let mut out: Vec<String> = Vec::new();
    for i in 0..n
        invariant
            n == names@.len(),
            ranking::is_ranking(names@, order@),
            order@ == ranking::the_ranking(names@),
            want == ranking::sorted(names@),
            text::texts(out@) == name_texts(want).take(i as int),
    {
        let ghost before = out@;
        let name = names[order[i]].text.clone();
        assert(want[i as int] == names@[order@[i as int] as int]);
        out.push(name);
        assert(text::texts(out@) =~= text::texts(before).push(name@));
        assert(name_texts(want).take(i as int + 1) =~= name_texts(want).take(i as int).push(
            want[i as int].text@,
        ));
    }
    assert(text::texts(out@) =~= name_texts(want));
    out
}

/// The corpora that the first `n` directory names stand for.
pub open spec fn corpora_of(names: Seq<Seq<char>>, n: int) -> Seq<Seq<char>>
    decreases n,
{
    if n <= 0 {
        Seq::empty()
    } else {
        match corpus_of(names[n - 1]) {
            Some(corpus) => corpora_of(names, n - 1).push(corpus),
            None => corpora_of(names, n - 1),
        }
    }
}

/// The corpora that a shared directory holds, by the names of its directories, in
/// ascending order.
pub fn corpora(names: &Vec<String>) -> (r: Vec<String>)
    ensures
        is_sorted_form(
            corpora_of(text::texts(names@), names@.len() as int),
            text::texts(r@),
        ),
{
    let n: usize = names.len();
    let ghost all = text::texts(names@);
    let mut out: Vec<String> = Vec::new();
    assert(text::texts(out@) =~= Seq::empty());
    for i in 0..n
        invariant
            n == names@.len(),
            all == text::texts(names@),
            text::texts(out@) == corpora_of(all, i as int),
    {
        assert(all[i as int] == names@[i as int]@);
        if let Some(corpus) = corpus_name(names[i].as_str()) {
            let ghost before = out@;
            out.push(corpus);
            assert(text::texts(out@) =~= text::texts(before).push(corpus@));
        }
    }
    sort_texts(out)
}

/// A file name ends in `.jsonl`, with something before it.
pub open spec fn is_record_file(name: Seq<char>) -> bool {
    let suffix = ".jsonl"@;
    &&& name.len() > suffix.len()
    &&& name.skip(name.len() - suffix.len()) == suffix
}

/// The record files among the first `n` names.
pub open spec fn record_files(names: Seq<Seq<char>>, n: int) -> Seq<Seq<char>>
    decreases n,
{
    if n <= 0 {
        Seq::empty()
    } else if is_record_file(names[n - 1]) {
        record_files(names, n - 1).push(names[n - 1])
    } else {
        record_files(names, n - 1)
    }
}

/// The files that hold records of a corpus, one per host, in ascending order.
pub fn cache_files(names: &Vec<String>) -> (r: Vec<String>)
    ensures
        is_sorted_form(
            record_files(text::texts(names@), names@.len() as int),
            text::texts(r@),
        ),
{
    let n: usize = names.len();
    let suffix = ".jsonl".to_owned();
    let wide: usize = ".jsonl".unicode_len();
    let ghost all = text::texts(names@);
    let mut out: Vec<String> = Vec::new();
    assert(text::texts(out@) =~= Seq::empty());
    for i in 0..n
        invariant
            n == names@.len(),
            all == text::texts(names@),
            suffix@ == ".jsonl"@,
            wide == ".jsonl"@.len(),
            text::texts(out@) == record_files(all, i as int),
    {
        assert(all[i as int] == names@[i as int]@);
        let length: usize = names[i].as_str().unicode_len();
        if length > wide {
            let end = chars_from(names[i].as_str(), length - wide);
            if end == suffix {
                let ghost before = out@;
                let name = names[i].clone();
                out.push(name);
                assert(text::texts(out@) =~= text::texts(before).push(name@));
            }
        }
    }
    sort_texts(out)
}

/// A prune rewrites the file only when it drops something, and never in a dry
/// run.
pub fn needs_rewrite(outcome: &PruneOutcome, dry_run: bool) -> (r: bool)
    ensures
        r == (!dry_run && outcome.kept != outcome.read),
{
    !dry_run && outcome.kept != outcome.read
}

/// A name that is safe already, and has no hyphen at either end, is kept as it is;
/// and a sanitised name has none there.
pub proof fn safe_names_are_kept(s: Seq<char>)
    ensures
        s.len() > 0 && (forall|i: int| 0 <= i < s.len() ==> is_safe(#[trigger] s[i])) && s[0]
            != '-' && s.last() != '-' ==> sanitised(s) == s,
        sanitised(s)[0] != '-',
        sanitised(s).last() != '-',
{
    reveal_strlit("unknown");
    let drop = |c: char| c == '-';
    start_trims_a_prefix(cleaned(s), drop);
    end_trims_a_suffix(text::trimmed_start(cleaned(s), drop), drop);
    let start = text::trimmed_start(cleaned(s), drop);
    let n = choose|n: int|
        0 <= n <= start.len() && #[trigger] start.take(n) == text::trimmed_end(start, drop);
    if text::trimmed(cleaned(s), drop).len() > 0 {
        assert(text::trimmed(cleaned(s), drop)[0] == start[0]);
    }
    if s.len() > 0 && (forall|i: int| 0 <= i < s.len() ==> is_safe(#[trigger] s[i])) && s[0] != '-'
        && s.last() != '-' {
        assert(cleaned(s) =~= s);
    }
}

/// A character that is no letter, digit, hyphen or underscore never reaches a path.
pub proof fn separators_are_not_safe(c: char)
    requires
        c == '.' || c == '/' || c == '\\' || c == ':' || c == ' ' || c as int >= 128,
    ensures
        !is_safe(c),
{
}

/// A host goes by the first name that is not blank, without the space around it; a
/// name in front of it does not matter when it is blank or missing.
pub proof fn hosts_go_by_the_first_name(names: Seq<Option<String>>, k: int)
    requires
        0 <= k < names.len(),
        names[k] is Some,
        text::bare(names[k]->0@).len() > 0,
        forall|i: int|
            0 <= i < k ==> (#[trigger] names[i]) is None || text::bare(names[i]->0@).len() == 0,
    ensures
        host_name(names) == text::bare(names[k]->0@),
    decreases k,
{
    if k > 0 {
        let rest = names.drop_first();
        assert forall|i: int| 0 <= i < k - 1 implies (#[trigger] rest[i]) is None || text::bare(
            rest[i]->0@,
        ).len() == 0 by {
            assert(rest[i] == names[i + 1]);
        }
        assert(rest[k - 1] == names[k]);
        assert(names[0] is None || text::bare(names[0]->0@).len() == 0);
        hosts_go_by_the_first_name(rest, k - 1);
    }
}

/// The record files of a directory are those of its names that end in `.jsonl` with
/// something before it.
pub proof fn record_files_end_in_their_suffix(names: Seq<Seq<char>>, n: int)
    requires
        0 <= n <= names.len(),
    ensures
        record_files(names, n) == names.take(n).filter(
            |name: Seq<char>|
                exists|stem: Seq<char>| #[trigger] stem.len() > 0 && name == stem + ".jsonl"@,
        ),
    decreases n,
{
    reveal(Seq::filter);
    let wanted = |name: Seq<char>|
        exists|stem: Seq<char>| #[trigger] stem.len() > 0 && name == stem + ".jsonl"@;
    if n > 0 {
        record_files_end_in_their_suffix(names, n - 1);
        assert(names.take(n).drop_last() =~= names.take(n - 1));
        assert(names.take(n).last() == names[n - 1]);
        let name = names[n - 1];
        let suffix = ".jsonl"@;
        if is_record_file(name) {
            let stem = name.take(name.len() - suffix.len());
            assert(name =~= stem + suffix);
            assert(stem.len() > 0);
        }
        if wanted(name) {
            let stem = choose|stem: Seq<char>| #[trigger] stem.len() > 0 && name == stem + suffix;
            assert(name.skip(name.len() - suffix.len()) =~= suffix);
        }
    }
}

/// The corpus `c` is the one that the directory name stands for.
pub open spec fn stands_for(name: Seq<char>, c: Seq<char>) -> bool {
    name == "corpus-"@ + c
}

/// A corpus is listed exactly when one of the directory names stands for it.
pub proof fn corpora_have_a_directory(names: Seq<Seq<char>>, n: int, c: Seq<char>)
    requires
        0 <= n <= names.len(),
    ensures
        corpora_of(names, n).contains(c) <==> exists|i: int|
            0 <= i < n && #[trigger] stands_for(names[i], c),
        corpora_of(names, n).len() <= n,
    decreases n,
{
    if n > 0 {
        corpora_have_a_directory(names, n - 1, c);
        let before = corpora_of(names, n - 1);
        let all = corpora_of(names, n);
        let name = names[n - 1];
        let prefix = "corpus-"@;
        if corpus_of(name) is Some {
            assert(name =~= prefix + name.skip(prefix.len() as int));
            assert(all[before.len() as int] == corpus_of(name)->0);
        }
        if stands_for(name, c) {
            assert((prefix + c).take(prefix.len() as int) =~= prefix);
            assert((prefix + c).skip(prefix.len() as int) =~= c);
            assert(all[before.len() as int] == c);
        }
        if before.contains(c) {
            let k = choose|k: int| 0 <= k < before.len() && before[k] == c;
            assert(all[k] == c);
        }
        if all.contains(c) {
            let k = choose|k: int| 0 <= k < all.len() && all[k] == c;
            if k < before.len() {
                assert(before[k] == c);
                let i = choose|i: int| 0 <= i < n - 1 && #[trigger] stands_for(names[i], c);
                assert(stands_for(names[i], c));
            } else {
                assert(stands_for(names[n - 1], c));
            }
        }
    }
}

} // verus!
