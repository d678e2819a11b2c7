use vstd::prelude::*;
use vstd::string::StringExecFns;
use vstd::string::StringSliceAdditionalSpecFns;
use vstd::utf8::decode_utf8;

use crate::bag::views;
use crate::names::compare_bytes;
use crate::names::lex_less;
use crate::order::Rank;
use crate::errors::ElbieError;
use crate::names::same_name;
use crate::phoneme::members;
use crate::phoneme::name_bytes;
use crate::phoneme::Inventory;
use crate::phoneme::Phoneme;
use crate::phoneme_table::HeaderDef;
use crate::phoneme_table::TableDef;
use crate::phoneme_table::TableEntry;
use crate::reading::read_names;
use crate::reading::read_word;
use crate::reading::reading_source;
use crate::word_table::WordTable;
use crate::word_table::WordTableEntry;
use vstd::utf8::encode_utf8;
use crate::text::decimal;
use crate::text::decimal_text;
use crate::text::push_char;

verus! {

/// A name given as UTF-8 bytes, written as text.
pub open spec fn name_text(bytes: Seq<u8>) -> Seq<char> {
    decode_utf8(bytes)
}

/// What follows a run of structure sets in the clusters seen so far: the structure sets that
/// come next within the cluster, each with its count and what follows it; the cluster sets of
/// the phonemes that come right after the cluster, each with its count and the counts of their
/// structure sets; and how often the cluster ended the word.
pub struct FollowersView {
    pub children: Seq<(Seq<u8>, nat, FollowersView)>,
    pub beyond: Seq<(Seq<u8>, nat, Seq<(Seq<u8>, nat)>)>,
    pub end_of_word: nat,
}

/// The clusters of one position (initial, medial or final) as plain values: for each run of
/// structure sets, its count and the counts of the phoneme sequences that had it; and the tree
/// of structure sets by first set.
pub struct StructureView {
    pub clusters: Seq<(Seq<Seq<u8>>, nat, Seq<(Seq<Seq<u8>>, nat)>)>,
    pub tree: Seq<(Seq<u8>, nat, FollowersView)>,
}

/// The analysis of one cluster set as plain values: initial, medial and final clusters, and
/// for each number of clusters, how many words had that many.
pub struct SetInfoView {
    pub initial: StructureView,
    pub medial: StructureView,
    pub final_: StructureView,
    pub counts: Seq<(nat, nat)>,
}

/// The followers of a run of structure sets, kept in ascending order of set name.
#[derive(Debug)]
pub struct ClusterFollowers {
    in_cluster: Vec<(&'static str, usize, ClusterFollowers)>,
    beyond_cluster: Vec<(&'static str, usize, Vec<(&'static str, usize)>)>,
    end_of_word: usize,
}

/// The clusters of one position, kept in ascending order of key.
#[derive(Debug)]
pub struct ClusterInfoByStructureClasses {
    clusters: Vec<(Vec<&'static str>, usize, Vec<(Vec<Phoneme>, usize)>)>,
    tree: Vec<(&'static str, usize, ClusterFollowers)>,
}

/// The analysis of one cluster set.
#[derive(Debug)]
pub struct ClusterSetInfo {
    initial: ClusterInfoByStructureClasses,
    medial: ClusterInfoByStructureClasses,
    final_: ClusterInfoByStructureClasses,
    counts_per_word: Vec<(usize, usize)>,
}

/// The analysis of some words, by cluster set in ascending order of name.
#[derive(Debug)]
pub struct AnalysisResults {
    info_by_set: Vec<(&'static str, ClusterSetInfo)>,
}

/// The followers as plain values.
pub closed spec fn followers_view(f: ClusterFollowers) -> FollowersView
    decreases f,
{
    FollowersView {
        children: Seq::new(
            f.in_cluster@.len(),
            |i: int|
                (
                    f.in_cluster@[i].0.spec_bytes(),
                    f.in_cluster@[i].1 as nat,
                    if 0 <= i < f.in_cluster@.len() {
                        followers_view(f.in_cluster@[i].2)
                    } else {
                        FollowersView { children: Seq::empty(), beyond: Seq::empty(), end_of_word: 0 }
                    },
                ),
        ),
        beyond: f.beyond_cluster@.map_values(
            |b: (&'static str, usize, Vec<(&'static str, usize)>)|
                (b.0.spec_bytes(), b.1 as nat, name_counts(b.2@)),
        ),
        end_of_word: f.end_of_word as nat,
    }
}

/// Counts by name as plain values.
pub open spec fn name_counts(s: Seq<(&'static str, usize)>) -> Seq<(Seq<u8>, nat)> {
    s.map_values(|e: (&'static str, usize)| (e.0.spec_bytes(), e.1 as nat))
}

/// The clusters of a position as plain values.
pub closed spec fn structure_view(s: ClusterInfoByStructureClasses) -> StructureView {
    StructureView {
        clusters: s.clusters@.map_values(
            |c: (Vec<&'static str>, usize, Vec<(Vec<Phoneme>, usize)>)|
                (
                    name_bytes(c.0@),
                    c.1 as nat,
                    c.2@.map_values(|p: (Vec<Phoneme>, usize)| (views(p.0@), p.1 as nat)),
                ),
        ),
        tree: tree_view(s.tree@),
    }
}

/// The analysis of a cluster set as plain values.
pub closed spec fn set_info_view(i: ClusterSetInfo) -> SetInfoView {
    SetInfoView {
        initial: structure_view(i.initial),
        medial: structure_view(i.medial),
        final_: structure_view(i.final_),
        counts: i.counts_per_word@.map_values(|c: (usize, usize)| (c.0 as nat, c.1 as nat)),
    }
}

impl View for AnalysisResults {
    type V = Seq<(Seq<u8>, SetInfoView)>;

    closed spec fn view(&self) -> Seq<(Seq<u8>, SetInfoView)> {
        self.info_by_set@.map_values(|e: (&'static str, ClusterSetInfo)| (e.0.spec_bytes(), set_info_view(e.1)))
    }
}

/// `n` spaces.
pub open spec fn spaces(n: nat) -> Seq<char> {
    Seq::new(n, |i: int| ' ')
}

/// A line of a count by name: the padding, the opening, the name, `] `, the count and the
/// closing.
pub open spec fn entry_line(pad: Seq<char>, open: Seq<char>, name: Seq<u8>, count: nat, close: Seq<char>) -> Seq<
    char,
> {
    pad + open + name_text(name) + "] "@ + decimal(count) + close
}

/// The line of how often clusters ended the word.
pub open spec fn done_line(pad: Seq<char>, count: nat) -> Seq<char> {
    pad + "DONE <end of word> "@ + decimal(count) + "\n"@
}

/// The lines of the followers, each after `pad`: for each set within the cluster, `[set]
/// count ->` and its own followers indented further; for each set beyond it, `NEXT [set] count
/// ->` and the counts of its structure sets; and `DONE <end of word> count` when the cluster
/// ended words.
pub open spec fn followers_text(f: FollowersView, pad: Seq<char>) -> Seq<char>
    decreases f, 1int,
{
    children_text(f.children, pad) + beyond_text(f.beyond, pad) + if f.end_of_word > 0 {
        done_line(pad, f.end_of_word)
    } else {
        Seq::empty()
    }
}

/// The lines of the sets within a cluster and of what follows each.
pub open spec fn children_text(children: Seq<(Seq<u8>, nat, FollowersView)>, pad: Seq<char>) -> Seq<char>
    decreases children, 0int,
{
    if children.len() == 0 {
        Seq::empty()
    } else {
        let last = children.last();
        children_text(children.drop_last(), pad) + entry_line(pad, "["@, last.0, last.1, " ->\n"@)
            + followers_text(last.2, pad + "    "@)
    }
}

/// The lines of the counts of structure sets, each after `pad`.
pub open spec fn name_counts_text(counts: Seq<(Seq<u8>, nat)>, pad: Seq<char>) -> Seq<char>
    decreases counts.len(),
{
    if counts.len() == 0 {
        Seq::empty()
    } else {
        name_counts_text(counts.drop_last(), pad) + entry_line(pad, "["@, counts.last().0, counts.last().1, "\n"@)
    }
}

/// The lines of the sets that come after clusters.
pub open spec fn beyond_text(beyond: Seq<(Seq<u8>, nat, Seq<(Seq<u8>, nat)>)>, pad: Seq<char>) -> Seq<char>
    decreases beyond.len(),
{
    if beyond.len() == 0 {
        Seq::empty()
    } else {
        let last = beyond.last();
        beyond_text(beyond.drop_last(), pad) + entry_line(pad, "NEXT ["@, last.0, last.1, " ->\n"@)
            + name_counts_text(last.2, pad + "    "@)
    }
}


/// The names of a run of structure sets joined by ` + `.
pub open spec fn joined_names(names: Seq<Seq<u8>>) -> Seq<char>
    decreases names.len(),
{
    if names.len() == 0 {
        Seq::empty()
    } else if names.len() == 1 {
        name_text(names[0])
    } else {
        joined_names(names.drop_last()) + " + "@ + name_text(names.last())
    }
}

/// Phoneme names written one after another between slashes, as a word is written.
pub open spec fn phonemes_text(names: Seq<Seq<u8>>) -> Seq<char>
    decreases names.len(),
{
    if names.len() == 0 {
        Seq::empty()
    } else {
        phonemes_text(names.drop_last()) + name_text(names.last())
    }
}

/// The phoneme sequences of a cluster, each written `/phonemes/ (count) `.
pub open spec fn examples_text(examples: Seq<(Seq<Seq<u8>>, nat)>) -> Seq<char>
    decreases examples.len(),
{
    if examples.len() == 0 {
        Seq::empty()
    } else {
        examples_text(examples.drop_last()) + "/"@ + phonemes_text(examples.last().0) + "/ ("@ + decimal(
            examples.last().1,
        ) + ") "@
    }
}

/// The line of a cluster: `"set + set" (count) including: ` and its phoneme sequences.
pub open spec fn cluster_line(cluster: (Seq<Seq<u8>>, nat, Seq<(Seq<Seq<u8>>, nat)>)) -> Seq<char> {
    "\""@ + joined_names(cluster.0) + "\" ("@ + decimal(cluster.1) + ") including: "@ + examples_text(cluster.2)
        + "\n"@
}

/// A line for each cluster: `"set + set" (count) including: ` and its phoneme sequences.
pub open spec fn clusters_text(clusters: Seq<(Seq<Seq<u8>>, nat, Seq<(Seq<Seq<u8>>, nat)>)>) -> Seq<char>
    decreases clusters.len(),
{
    if clusters.len() == 0 {
        Seq::empty()
    } else {
        clusters_text(clusters.drop_last()) + cluster_line(clusters.last())
    }
}

/// The tree of structure sets: for each first set, `[set] count ->` and its followers.
pub open spec fn tree_text(tree: Seq<(Seq<u8>, nat, FollowersView)>) -> Seq<char>
    decreases tree.len(),
{
    if tree.len() == 0 {
        Seq::empty()
    } else {
        let last = tree.last();
        tree_text(tree.drop_last()) + entry_line(Seq::empty(), "["@, last.0, last.1, " ->\n"@)
            + followers_text(last.2, "    "@)
    }
}

/// The clusters of a position as text: the clusters and counts, then the tree in a code block.
pub open spec fn structure_text(s: StructureView) -> Seq<char> {
    "### Clusters and Counts\n\n"@ + clusters_text(s.clusters) + "\n### Tree\n\n```\n"@ + tree_text(s.tree)
        + "```\n"@
}

/// The number of words counted from the `i`th count on.
pub open spec fn counted_from(counts: Seq<(nat, nat)>, i: int) -> nat
    decreases counts.len() - i,
{
    if i < 0 || i >= counts.len() {
        0
    } else {
        counts[i].1 + counted_from(counts, i + 1)
    }
}

/// The line of the `i`th count: how many words have at least that many clusters, and which
/// share that is of the words with at least the number before it.
pub open spec fn count_line(counts: Seq<(nat, nat)>, i: int) -> Seq<char> {
    count_text(
        counted_from(counts, i),
        counts[i].0,
        if i == 0 {
            counted_from(counts, 0)
        } else {
            counted_from(counts, i - 1)
        },
        if i == 0 {
            0
        } else {
            counts[i - 1].0
        },
    )
}

/// The line saying that `at_least` words have at least `number` clusters, and, when `number`
/// is not 0 and that is fewer than the `before` words with at least `previous_number`, which
/// share of them it is, rounded down.
pub open spec fn count_text(at_least: nat, number: nat, before: nat, previous_number: nat) -> Seq<char> {
    decimal(at_least) + " words have at least "@ + decimal(number) + " instances"@ + if number > 0 && at_least
        != before {
        ", or "@ + decimal(at_least * 100 / before) + "% of words with at least "@ + decimal(previous_number)
            + " instances.\n"@
    } else {
        ", or 100% of words.\n"@
    }
}

/// The lines of the first `n` counts.
pub open spec fn count_lines(counts: Seq<(nat, nat)>, n: int) -> Seq<char>
    decreases n,
{
    if n <= 0 {
        Seq::empty()
    } else {
        count_lines(counts, n - 1) + count_line(counts, n - 1)
    }
}

/// The analysis of a cluster set as text: the counts per word, then the initial, final and
/// medial clusters.
pub open spec fn set_info_text(info: SetInfoView) -> Seq<char> {
    "## Counts Per Word\n\n"@ + count_lines(info.counts, info.counts.len() as int) + "total of "@ + decimal(
        counted_from(info.counts, 0),
    ) + " words analyzed\n\n"@ + "## Initial Clusters\n\n"@ + structure_text(info.initial) + "\n"@
        + "## Final Clusters\n\n"@ + structure_text(info.final_) + "\n"@ + "## Medial Clusters\n\n"@
        + structure_text(info.medial) + "\n"@
}

/// The analysis as text: for each cluster set, `# set` and its analysis.
pub open spec fn results_text(results: Seq<(Seq<u8>, SetInfoView)>) -> Seq<char>
    decreases results.len(),
{
    if results.len() == 0 {
        Seq::empty()
    } else {
        results_text(results.drop_last()) + "# "@ + name_text(results.last().0) + "\n\n"@ + set_info_text(
            results.last().1,
        ) + "\n"@
    }
}


fn push_name(out: &mut String, name: &str)
    ensures
        final(out)@ == old(out)@ + name_text(name.spec_bytes()),
{
    proof {
        vstd::utf8::encode_utf8_decode_utf8(name@);
    }
    out.append(name);
}

fn push_number(out: &mut String, n: usize)
    ensures
        final(out)@ == old(out)@ + decimal(n as nat),
{
    let digits = decimal_text(n);
    out.append(digits.as_str());
}

fn write_line(out: &mut String, pad: &str, open: &str, name: &str, count: usize, close: &str)
    ensures
        final(out)@ == old(out)@ + entry_line(pad@, open@, name.spec_bytes(), count as nat, close@),
{
    let ghost start = out@;
    out.append(pad);
    out.append(open);
    push_name(out, name);
    out.append("] ");
    push_number(out, count);
    out.append(close);
    assert(out@ =~= start + entry_line(pad@, open@, name.spec_bytes(), count as nat, close@));
}

fn write_count_line(out: &mut String, at_least: usize, number: usize, before: usize, previous_number: usize)
    requires
        at_least <= before,
    ensures
        final(out)@ == old(out)@ + count_text(at_least as nat, number as nat, before as nat, previous_number as nat),
{
    let ghost start = out@;
    push_number(out, at_least);
    out.append(" words have at least ");
    push_number(out, number);
    out.append(" instances");
    let ghost head = out@;
    if number > 0 && at_least != before {
        let share = (at_least as u128 * 100) / (before as u128);
        proof {
            lemma_share_below_whole(at_least as nat, before as nat);
        }
        out.append(", or ");
        push_number(out, share as usize);
        out.append("% of words with at least ");
        push_number(out, previous_number);
        out.append(" instances.\n");
        assert(out@ =~= head + (", or "@ + decimal(at_least as nat * 100 / before as nat) + "% of words with at least "@
            + decimal(previous_number as nat) + " instances.\n"@));
    } else {
        out.append(", or 100% of words.\n");
    }
    assert(out@ =~= start + count_text(at_least as nat, number as nat, before as nat, previous_number as nat));
}

fn write_name_counts(counts: &Vec<(&'static str, usize)>, pad: &String, out: &mut String)
    ensures
        final(out)@ == old(out)@ + name_counts_text(name_counts(counts@), pad@),
{
    let ghost start = out@;
    let ghost view = name_counts(counts@);
    let mut i: usize = 0;
    while i < counts.len()
        invariant
            i <= counts@.len(),
            view == name_counts(counts@),
            out@ == start + name_counts_text(view.take(i as int), pad@),
        decreases counts@.len() - i,
    {
        write_line(out, pad.as_str(), "[", counts[i].0, counts[i].1, "\n");
        proof {
            assert(view.take(i + 1).drop_last() =~= view.take(i as int));
            assert(view.take(i + 1).last() == view[i as int]);
        }
        i = i + 1;
    }
    proof {
        assert(view.take(i as int) =~= view);
    }
}

#[verifier::spinoff_prover]
fn write_followers(f: &ClusterFollowers, pad: &String, out: &mut String)
    ensures
        final(out)@ == old(out)@ + followers_text(followers_view(*f), pad@),
    decreases f,
{
    let ghost start = out@;
    let ghost view = followers_view(*f);
    let mut deeper = pad.clone();
    deeper.append("    ");
    let mut i: usize = 0;
    while i < f.in_cluster.len()
        invariant
            i <= f.in_cluster@.len(),
            view == followers_view(*f),
            deeper@ == pad@ + "    "@,
            out@ == start + children_text(view.children.take(i as int), pad@),
        decreases f.in_cluster@.len() - i,
    {
        let child = &f.in_cluster[i];
        write_line(out, pad.as_str(), "[", child.0, child.1, " ->\n");
        proof {
            assert(decreases_to!(f => f.in_cluster@[i as int].2));
        }
        write_followers(&child.2, &deeper, out);
        proof {
            assert(view.children.take(i + 1).drop_last() =~= view.children.take(i as int));
            assert(view.children.take(i + 1).last() == view.children[i as int]);
        }
        i = i + 1;
    }
    proof {
        assert(view.children.take(i as int) =~= view.children);
    }
    let ghost middle = out@;
    let mut j: usize = 0;
    while j < f.beyond_cluster.len()
        invariant
            j <= f.beyond_cluster@.len(),
            view == followers_view(*f),
            deeper@ == pad@ + "    "@,
            out@ == middle + beyond_text(view.beyond.take(j as int), pad@),
        decreases f.beyond_cluster@.len() - j,
    {
        let next = &f.beyond_cluster[j];
        write_line(out, pad.as_str(), "NEXT [", next.0, next.1, " ->\n");
        write_name_counts(&next.2, &deeper, out);
        proof {
            assert(view.beyond.take(j + 1).drop_last() =~= view.beyond.take(j as int));
            assert(view.beyond.take(j + 1).last() == view.beyond[j as int]);
        }
        j = j + 1;
    }
    proof {
        assert(view.beyond.take(j as int) =~= view.beyond);
    }
    if f.end_of_word > 0 {
        let ghost before = out@;
        out.append(pad.as_str());
        out.append("DONE <end of word> ");
        push_number(out, f.end_of_word);
        out.append("\n");
        assert(out@ =~= before + done_line(pad@, f.end_of_word as nat));
    }
}

fn write_examples(examples: &Vec<(Vec<Phoneme>, usize)>, out: &mut String)
    ensures
        final(out)@ == old(out)@ + examples_text(
            examples@.map_values(|p: (Vec<Phoneme>, usize)| (views(p.0@), p.1 as nat)),
        ),
{
    let ghost start = out@;
    let ghost view = examples@.map_values(|p: (Vec<Phoneme>, usize)| (views(p.0@), p.1 as nat));
    let mut i: usize = 0;
    while i < examples.len()
        invariant
            i <= examples@.len(),
            view == examples@.map_values(|p: (Vec<Phoneme>, usize)| (views(p.0@), p.1 as nat)),
            out@ == start + examples_text(view.take(i as int)),
        decreases examples@.len() - i,
    {
        let phonemes = &examples[i].0;
        out.append("/");
        let ghost before = out@;
        let mut k: usize = 0;
        while k < phonemes.len()
            invariant
                k <= phonemes@.len(),
                out@ == before + phonemes_text(views(phonemes@).take(k as int)),
            decreases phonemes@.len() - k,
        {
            push_name(out, phonemes[k].name);
            proof {
                assert(views(phonemes@).take(k + 1).drop_last() =~= views(phonemes@).take(k as int));
                assert(views(phonemes@)[k as int] == phonemes@[k as int].name.spec_bytes());
            }
            k = k + 1;
        }
        proof {
            assert(views(phonemes@).take(k as int) =~= views(phonemes@));
        }
        out.append("/ (");
        push_number(out, examples[i].1);
        out.append(") ");
        proof {
            assert(view.take(i + 1).drop_last() =~= view.take(i as int));
            assert(view.take(i + 1).last() == view[i as int]);
        }
        i = i + 1;
    }
    proof {
        assert(view.take(i as int) =~= view);
    }
}

fn write_joined(names: &Vec<&'static str>, out: &mut String)
    ensures
        final(out)@ == old(out)@ + joined_names(name_bytes(names@)),
{
    let ghost start = out@;
    let ghost view = name_bytes(names@);
    let mut i: usize = 0;
    while i < names.len()
        invariant
            i <= names@.len(),
            view == name_bytes(names@),
            out@ == start + joined_names(view.take(i as int)),
        decreases names@.len() - i,
    {
        if i > 0 {
            out.append(" + ");
        }
        push_name(out, names[i]);
        proof {
            assert(view.take(i + 1).drop_last() =~= view.take(i as int));
            if i == 0 {
                assert(view.take(1)[0] == view[0]);
            }
        }
        i = i + 1;
    }
    proof {
        assert(view.take(i as int) =~= view);
    }
}

/// The tree of a position as plain values.
pub open spec fn tree_view(tree: Seq<(&'static str, usize, ClusterFollowers)>) -> Seq<(Seq<u8>, nat, FollowersView)> {
    tree.map_values(|t: (&'static str, usize, ClusterFollowers)| (t.0.spec_bytes(), t.1 as nat, followers_view(t.2)))
}

#[verifier::spinoff_prover]
#[verifier::rlimit(40)]
fn write_tree(tree: &Vec<(&'static str, usize, ClusterFollowers)>, out: &mut String)
    ensures
        final(out)@ == old(out)@ + tree_text(tree_view(tree@)),
{
    let ghost start = out@;
    let ghost view = tree_view(tree@);
    let mut pad = String::new();
    pad.append("    ");
    let mut j: usize = 0;
    while j < tree.len()
        invariant
            j <= tree@.len(),
            view == tree_view(tree@),
            pad@ == "    "@,
            out@ == start + tree_text(view.take(j as int)),
        decreases tree@.len() - j,
    {
        let root = &tree[j];
        proof {
            assert(view[j as int] == (root.0.spec_bytes(), root.1 as nat, followers_view(root.2)));
        }
        proof {
            reveal_strlit("");
            assert(""@ =~= Seq::<char>::empty());
        }
        write_line(out, "", "[", root.0, root.1, " ->\n");
        write_followers(&root.2, &pad, out);
        proof {
            let t = view.take(j + 1);
            assert(t.drop_last() =~= view.take(j as int));
            assert(t.last() == view[j as int]);
        }
        j = j + 1;
    }
    proof {
        assert(view.take(j as int) =~= view);
    }
}

fn write_cluster_line(cluster: &(Vec<&'static str>, usize, Vec<(Vec<Phoneme>, usize)>), out: &mut String)
    ensures
        final(out)@ == old(out)@ + cluster_line((name_bytes(cluster.0@), cluster.1 as nat, examples_view(cluster.2@))),
{
    let ghost before = out@;
    out.append("\"");
    write_joined(&cluster.0, out);
    out.append("\" (");
    push_number(out, cluster.1);
    out.append(") including: ");
    write_examples(&cluster.2, out);
    out.append("\n");
    assert(out@ =~= before + cluster_line((name_bytes(cluster.0@), cluster.1 as nat, examples_view(cluster.2@))));
}

#[verifier::spinoff_prover]
fn write_clusters(clusters: &Vec<(Vec<&'static str>, usize, Vec<(Vec<Phoneme>, usize)>)>, out: &mut String)
    ensures
        final(out)@ == old(out)@ + clusters_text(clusters_view(clusters@)),
{
    let ghost head = out@;
    let ghost view = clusters_view(clusters@);
    let mut i: usize = 0;
    while i < clusters.len()
        invariant
            i <= clusters@.len(),
            view == clusters_view(clusters@),
            out@ == head + clusters_text(view.take(i as int)),
        decreases clusters@.len() - i,
    {
        let cluster = &clusters[i];
        write_cluster_line(cluster, out);
        proof {
            assert(view[i as int] == (name_bytes(cluster.0@), cluster.1 as nat, examples_view(cluster.2@)));
            assert(view.take(i + 1).drop_last() =~= view.take(i as int));
            assert(view.take(i + 1).last() == view[i as int]);
        }
        i = i + 1;
    }
    proof {
        assert(view.take(i as int) =~= view);
    }
}

fn write_structure(s: &ClusterInfoByStructureClasses, out: &mut String)
    ensures
        final(out)@ == old(out)@ + structure_text(structure_view(*s)),
{
    let ghost start = out@;
    proof {
        ClusterInfoByStructureClasses::lemma_view(*s);
    }
    out.append("### Clusters and Counts\n\n");
    write_clusters(&s.clusters, out);
    out.append("\n### Tree\n\n```\n");
    write_tree(&s.tree, out);
    out.append("```\n");
    assert(out@ =~= start + structure_text(structure_view(*s)));
}


proof fn lemma_counted_step(counts: Seq<(nat, nat)>, i: int)
    requires
        0 <= i < counts.len(),
    ensures
        counted_from(counts, i) == counts[i].1 + counted_from(counts, i + 1),
        counted_from(counts, i + 1) <= counted_from(counts, i),
{
}

proof fn lemma_counted_bound(counts: Seq<(nat, nat)>, i: int)
    requires
        0 <= i,
    ensures
        counted_from(counts, i) <= counted_from(counts, 0),
    decreases i,
{
    if i > 0 && i <= counts.len() {
        lemma_counted_bound(counts, i - 1);
    }
}

proof fn lemma_share_below_whole(part: nat, whole: nat)
    requires
        part < whole,
    ensures
        part * 100 / whole < 100,
{
    assert(part * 100 / whole < 100) by (nonlinear_arith)
        requires
            part < whole,
    ;
}

#[verifier::spinoff_prover]
fn write_counts(counts: &Vec<(usize, usize)>, out: &mut String)
    requires
        counted_from(counts@.map_values(|c: (usize, usize)| (c.0 as nat, c.1 as nat)), 0) <= usize::MAX,
    ensures
        ({
            let view = counts@.map_values(|c: (usize, usize)| (c.0 as nat, c.1 as nat));
            final(out)@ == old(out)@ + count_lines(view, view.len() as int) + "total of "@ + decimal(
                counted_from(view, 0),
            ) + " words analyzed\n\n"@
        }),
{
    let ghost view = counts@.map_values(|c: (usize, usize)| (c.0 as nat, c.1 as nat));
    let ghost start = out@;
    let mut total: usize = 0;
    let mut i: usize = 0;
    while i < counts.len()
        invariant
            i <= counts@.len(),
            view == counts@.map_values(|c: (usize, usize)| (c.0 as nat, c.1 as nat)),
            counted_from(view, 0) <= usize::MAX,
            total + counted_from(view, i as int) == counted_from(view, 0),
        decreases counts@.len() - i,
    {
        proof {
            lemma_counted_step(view, i as int);
        }
        total = total + counts[i].1;
        i = i + 1;
    }
    let mut remaining: usize = total;
    let mut before: usize = total;
    let mut previous_number: usize = 0;
    let mut k: usize = 0;
    while k < counts.len()
        invariant
            k <= counts@.len(),
            view == counts@.map_values(|c: (usize, usize)| (c.0 as nat, c.1 as nat)),
            total == counted_from(view, 0),
            remaining == counted_from(view, k as int),
            before == if k == 0 {
                counted_from(view, 0)
            } else {
                counted_from(view, k - 1)
            },
            previous_number == if k == 0 {
                0
            } else {
                view[k - 1].0
            },
            out@ == start + count_lines(view, k as int),
        decreases counts@.len() - k,
    {
        proof {
            lemma_counted_step(view, k as int);
            if k > 0 {
                lemma_counted_step(view, k - 1);
            }
            lemma_counted_bound(view, k as int);
        }
        let at_least = remaining;
        let number = counts[k].0;
        write_count_line(out, at_least, number, before, previous_number);
        proof {
            assert(count_lines(view, k + 1) == count_lines(view, k as int) + count_line(view, k as int));
        }
        before = at_least;
        previous_number = number;
        remaining = remaining - counts[k].1;
        k = k + 1;
    }
    out.append("total of ");
    push_number(out, total);
    out.append(" words analyzed\n\n");
}

impl View for ClusterSetInfo {
    type V = SetInfoView;

    open spec fn view(&self) -> SetInfoView {
        set_info_view(*self)
    }
}

impl ClusterSetInfo {
    /// The analysis of the cluster set as text, as `set_info_text` says. The counts of words
    /// must add up to a number that fits in a `usize`.
    pub fn text(&self) -> (r: String)
        requires
            counted_from(self@.counts, 0) <= usize::MAX,
        ensures
            r@ == set_info_text(self@),
    {
        let mut out = String::new();
        out.append("## Counts Per Word\n\n");
        proof {
            reveal(set_info_view);
        }
        write_counts(&self.counts_per_word, &mut out);
        out.append("## Initial Clusters\n\n");
        write_structure(&self.initial, &mut out);
        out.append("\n");
        out.append("## Final Clusters\n\n");
        write_structure(&self.final_, &mut out);
        out.append("\n");
        out.append("## Medial Clusters\n\n");
        write_structure(&self.medial, &mut out);
        out.append("\n");
        out
    }
}

impl AnalysisResults {
    /// Whether the counts of words of every cluster set add up to a number that fits in a
    /// `usize`, as writing the analysis needs.
    pub open spec fn totals_fit(&self) -> bool {
        forall|i: int| 0 <= i < self@.len() ==> counted_from((#[trigger] self@[i]).1.counts, 0) <= usize::MAX
    }

    /// Checks `totals_fit`.
    pub fn check_totals(&self) -> (r: bool)
        ensures
            r == self.totals_fit(),
    {
        let mut i: usize = 0;
        while i < self.info_by_set.len()
            invariant
                i <= self.info_by_set@.len(),
                forall|q: int| 0 <= q < i ==> counted_from((#[trigger] self@[q]).1.counts, 0) <= usize::MAX,
            decreases self.info_by_set@.len() - i,
        {
            let counts = &self.info_by_set[i].1.counts_per_word;
            let ghost view = counts@.map_values(|c: (usize, usize)| (c.0 as nat, c.1 as nat));
            proof {
                reveal(set_info_view);
                assert(self@[i as int].1.counts == view);
            }
            let mut total: usize = 0;
            let mut k: usize = 0;
            while k < counts.len()
                invariant
                    k <= counts@.len(),
                    i < self.info_by_set@.len(),
                    self@[i as int].1.counts == view,
                    view == counts@.map_values(|c: (usize, usize)| (c.0 as nat, c.1 as nat)),
                    total + counted_from(view, k as int) == counted_from(view, 0),
                decreases counts@.len() - k,
            {
                proof {
                    lemma_counted_step(view, k as int);
                }
                match total.checked_add(counts[k].1) {
                    Some(t) => total = t,
                    None => {
                        proof {
                            assert(counted_from(view, 0) > usize::MAX);
                            assert(counted_from(self@[i as int].1.counts, 0) > usize::MAX);
                        }
                        return false;
                    },
                }
                k = k + 1;
            }
            i = i + 1;
        }
        true
    }

    /// The analysis as text, as `results_text` says. The totals must fit, as `totals_fit` says.
    pub fn text(&self) -> (r: String)
        requires
            self.totals_fit(),
        ensures
            r@ == results_text(self@),
    {
        let mut out = String::new();
        let mut i: usize = 0;
        while i < self.info_by_set.len()
            invariant
                i <= self.info_by_set@.len(),
                self.totals_fit(),
                out@ == results_text(self@.take(i as int)),
            decreases self.info_by_set@.len() - i,
        {
            let entry = &self.info_by_set[i];
            proof {
                assert(self@[i as int] == (entry.0.spec_bytes(), entry.1@));
                assert(counted_from(self@[i as int].1.counts, 0) <= usize::MAX);
            }
            out.append("# ");
            push_name(&mut out, entry.0);
            out.append("\n\n");
            let info = entry.1.text();
            out.append(info.as_str());
            out.append("\n");
            proof {
                assert(self@.take(i + 1).drop_last() =~= self@.take(i as int));
                assert(self@.take(i + 1).last() == self@[i as int]);
            }
            i = i + 1;
        }
        proof {
            assert(self@.take(i as int) =~= self@);
        }
        out
    }
}


/// A count one higher, up to the largest `usize`, where counts stop.
pub open spec fn tick(c: nat) -> nat {
    if c < usize::MAX {
        c + 1
    } else {
        c
    }
}

fn tick_count(c: usize) -> (r: usize)
    ensures
        r == tick(c as nat),
{
    c.saturating_add(1)
}

/// Lexicographic order on sequences of names, each name ordered by `lex_less`: the order of
/// `Vec<&str>` in Rust.
pub open spec fn list_less(a: Seq<Seq<u8>>, b: Seq<Seq<u8>>) -> bool
    decreases a.len(),
{
    if a.len() == 0 {
        b.len() > 0
    } else if b.len() == 0 {
        false
    } else if a[0] != b[0] {
        lex_less(a[0], b[0])
    } else {
        list_less(a.drop_first(), b.drop_first())
    }
}

/// Where a name belongs among keys kept in ascending order: whether it is there, and its index
/// or the index where it would be inserted. The keys are scanned from the first while they sort
/// before the name.
pub open spec fn name_slot(keys: Seq<Seq<u8>>, k: Seq<u8>) -> (bool, int)
    decreases keys.len(),
{
    if keys.len() == 0 {
        (false, 0)
    } else if keys[0] == k {
        (true, 0)
    } else if lex_less(keys[0], k) {
        let s = name_slot(keys.drop_first(), k);
        (s.0, s.1 + 1)
    } else {
        (false, 0)
    }
}

/// Where a sequence of names belongs among keys kept in ascending order, as `name_slot` says.
pub open spec fn list_slot(keys: Seq<Seq<Seq<u8>>>, k: Seq<Seq<u8>>) -> (bool, int)
    decreases keys.len(),
{
    if keys.len() == 0 {
        (false, 0)
    } else if keys[0] == k {
        (true, 0)
    } else if list_less(keys[0], k) {
        let s = list_slot(keys.drop_first(), k);
        (s.0, s.1 + 1)
    } else {
        (false, 0)
    }
}

/// Where a number belongs among keys kept in ascending order, as `name_slot` says.
pub open spec fn number_slot(keys: Seq<nat>, k: nat) -> (bool, int)
    decreases keys.len(),
{
    if keys.len() == 0 {
        (false, 0)
    } else if keys[0] == k {
        (true, 0)
    } else if keys[0] < k {
        let s = number_slot(keys.drop_first(), k);
        (s.0, s.1 + 1)
    } else {
        (false, 0)
    }
}

proof fn lemma_name_slot_bound(keys: Seq<Seq<u8>>, k: Seq<u8>)
    ensures
        0 <= name_slot(keys, k).1 <= keys.len(),
        name_slot(keys, k).0 ==> name_slot(keys, k).1 < keys.len() && keys[name_slot(keys, k).1] == k,
    decreases keys.len(),
{
    if keys.len() > 0 && keys[0] != k && lex_less(keys[0], k) {
        lemma_name_slot_bound(keys.drop_first(), k);
    }
}

proof fn lemma_list_slot_bound(keys: Seq<Seq<Seq<u8>>>, k: Seq<Seq<u8>>)
    ensures
        0 <= list_slot(keys, k).1 <= keys.len(),
        list_slot(keys, k).0 ==> list_slot(keys, k).1 < keys.len() && keys[list_slot(keys, k).1] == k,
    decreases keys.len(),
{
    if keys.len() > 0 && keys[0] != k && list_less(keys[0], k) {
        lemma_list_slot_bound(keys.drop_first(), k);
    }
}

proof fn lemma_number_slot_bound(keys: Seq<nat>, k: nat)
    ensures
        0 <= number_slot(keys, k).1 <= keys.len(),
        number_slot(keys, k).0 ==> number_slot(keys, k).1 < keys.len() && keys[number_slot(keys, k).1] == k,
    decreases keys.len(),
{
    if keys.len() > 0 && keys[0] != k && keys[0] < k {
        lemma_number_slot_bound(keys.drop_first(), k);
    }
}



/// An entry kept in order by a name.
pub trait NameKeyed {
    /// The name the entry is kept by, as UTF-8 bytes.
    spec fn key_bytes(&self) -> Seq<u8>;

    /// The name the entry is kept by.
    fn key_name(&self) -> (r: &'static str)
        ensures
            r.spec_bytes() == self.key_bytes(),
    ;
}

impl NameKeyed for &'static str {
    open spec fn key_bytes(&self) -> Seq<u8> {
        self.spec_bytes()
    }

    fn key_name(&self) -> (r: &'static str) {
        *self
    }
}

impl<A> NameKeyed for (&'static str, A) {
    open spec fn key_bytes(&self) -> Seq<u8> {
        self.0.spec_bytes()
    }

    fn key_name(&self) -> (r: &'static str) {
        self.0
    }
}

impl<A, B> NameKeyed for (&'static str, A, B) {
    open spec fn key_bytes(&self) -> Seq<u8> {
        self.0.spec_bytes()
    }

    fn key_name(&self) -> (r: &'static str) {
        self.0
    }
}

/// The names that entries are kept by.
pub open spec fn key_list<T: NameKeyed>(entries: Seq<T>) -> Seq<Seq<u8>> {
    entries.map_values(|e: T| e.key_bytes())
}

fn locate<T: NameKeyed>(entries: &Vec<T>, k: &str) -> (r: (bool, usize))
    ensures
        (r.0, r.1 as int) == name_slot(key_list(entries@), k.spec_bytes()),
        r.1 <= entries@.len(),
        r.0 ==> r.1 < entries@.len() && entries@[r.1 as int].key_bytes() == k.spec_bytes(),
{
    let ghost keys = key_list(entries@);
    let mut i: usize = 0;
    proof {
        assert(keys.skip(0) =~= keys);
    }
    while i < entries.len()
        invariant
            i <= entries@.len(),
            keys == key_list(entries@),
            name_slot(keys, k.spec_bytes()) == (name_slot(keys.skip(i as int), k.spec_bytes()).0, name_slot(
                keys.skip(i as int),
                k.spec_bytes(),
            ).1 + i),
        decreases entries@.len() - i,
    {
        let name = entries[i].key_name();
        proof {
            assert(keys.skip(i as int)[0] == keys[i as int]);
            assert(keys.skip(i as int).drop_first() =~= keys.skip(i + 1));
        }
        match compare_bytes(name.as_bytes(), k.as_bytes()) {
            Rank::Equal => {
                return (true, i);
            },
            Rank::Less => {},
            Rank::Greater => {
                proof {
                    crate::names::lemma_lex_order(name.spec_bytes(), k.spec_bytes(), name.spec_bytes());
                }
                return (false, i);
            },
        }
        i = i + 1;
    }
    proof {
        assert(keys.skip(i as int).len() == 0);
    }
    (false, i)
}


/// Followers with nothing in them.
pub open spec fn empty_followers() -> FollowersView {
    FollowersView { children: Seq::empty(), beyond: Seq::empty(), end_of_word: 0 }
}

/// The names of some counts.
pub open spec fn count_keys(counts: Seq<(Seq<u8>, nat)>) -> Seq<Seq<u8>> {
    counts.map_values(|e: (Seq<u8>, nat)| e.0)
}

/// The counts with the count of `k` one higher: a name not there yet comes in at its place in
/// the order, counted once.
pub open spec fn count_name(counts: Seq<(Seq<u8>, nat)>, k: Seq<u8>) -> Seq<(Seq<u8>, nat)> {
    let slot = name_slot(count_keys(counts), k);
    if slot.0 {
        counts.update(slot.1, (k, tick(counts[slot.1].1)))
    } else {
        counts.insert(slot.1, (k, tick(0)))
    }
}

/// The cluster set and structure set of the phoneme after a cluster, as plain values.
pub open spec fn next_view(next: Option<(&'static str, &'static str)>) -> Option<(Seq<u8>, Seq<u8>)> {
    match next {
        Some((t, s)) => Some((t.spec_bytes(), s.spec_bytes())),
        None => None,
    }
}

/// The followers after a cluster is added whose structure sets after the first are `keys` and
/// after which comes `next`: each set along the path is counted once more, and at its end the
/// phoneme after the cluster, or the end of the word, is counted.
pub open spec fn follow(f: FollowersView, keys: Seq<Seq<u8>>, next: Option<(Seq<u8>, Seq<u8>)>) -> FollowersView
    decreases keys.len(),
{
    if keys.len() > 0 {
        let slot = name_slot(f.children.map_values(|e: (Seq<u8>, nat, FollowersView)| e.0), keys[0]);
        let count = if slot.0 {
            f.children[slot.1].1
        } else {
            0
        };
        let sub = if slot.0 {
            f.children[slot.1].2
        } else {
            empty_followers()
        };
        let entry = (keys[0], tick(count), follow(sub, keys.drop_first(), next));
        FollowersView {
            children: if slot.0 {
                f.children.update(slot.1, entry)
            } else {
                f.children.insert(slot.1, entry)
            },
            beyond: f.beyond,
            end_of_word: f.end_of_word,
        }
    } else {
        match next {
            Some((t, s)) => {
                let slot = name_slot(f.beyond.map_values(|e: (Seq<u8>, nat, Seq<(Seq<u8>, nat)>)| e.0), t);
                let count = if slot.0 {
                    f.beyond[slot.1].1
                } else {
                    0
                };
                let sets = if slot.0 {
                    f.beyond[slot.1].2
                } else {
                    Seq::empty()
                };
                let entry = (t, tick(count), count_name(sets, s));
                FollowersView {
                    children: f.children,
                    beyond: if slot.0 {
                        f.beyond.update(slot.1, entry)
                    } else {
                        f.beyond.insert(slot.1, entry)
                    },
                    end_of_word: f.end_of_word,
                }
            },
            None => FollowersView {
                children: f.children,
                beyond: f.beyond,
                end_of_word: tick(f.end_of_word),
            },
        }
    }
}

fn count_in(counts: &mut Vec<(&'static str, usize)>, k: &'static str)
    ensures
        name_counts(final(counts)@) == count_name(name_counts(old(counts)@), k.spec_bytes()),
{
    let ghost before = name_counts(counts@);
    assert(key_list(counts@) =~= count_keys(before));
    let (found, i) = locate(counts, k);
    if found {
        let c = counts[i].1;
        counts.set(i, (k, tick_count(c)));
        assert(name_counts(counts@) =~= before.update(i as int, (k.spec_bytes(), tick(c as nat))));
    } else {
        counts.insert(i, (k, tick_count(0)));
        assert(name_counts(counts@) =~= before.insert(i as int, (k.spec_bytes(), tick(0))));
    }
}

impl ClusterFollowers {
    fn new() -> (r: Self)
        ensures
            followers_view(r) == empty_followers(),
    {
        let r = ClusterFollowers { in_cluster: Vec::new(), beyond_cluster: Vec::new(), end_of_word: 0 };
        assert(followers_view(r).children =~= Seq::<(Seq<u8>, nat, FollowersView)>::empty());
        assert(followers_view(r).beyond =~= Seq::<(Seq<u8>, nat, Seq<(Seq<u8>, nat)>)>::empty());
        r
    }

    fn follow_with(&mut self, keys: &Vec<&'static str>, from: usize, next: Option<(&'static str, &'static str)>)
        requires
            from <= keys@.len(),
        ensures
            followers_view(*final(self)) == follow(
                followers_view(*old(self)),
                name_bytes(keys@).skip(from as int),
                next_view(next),
            ),
        decreases keys@.len() - from,
    {
        let ghost old_view = followers_view(*self);
        let ghost path = name_bytes(keys@).skip(from as int);
        if from < keys.len() {
            let k = keys[from];
            proof {
                assert(path[0] == k.spec_bytes());
                assert(path.drop_first() =~= name_bytes(keys@).skip(from + 1));
                assert(key_list(self.in_cluster@) =~= old_view.children.map_values(
                    |e: (Seq<u8>, nat, FollowersView)| e.0,
                ));
            }
            let (found, i) = locate(&self.in_cluster, k);
            if !found {
                self.in_cluster.insert(i, (k, 0, ClusterFollowers::new()));
                assert(followers_view(*self).children =~= old_view.children.insert(
                    i as int,
                    (k.spec_bytes(), 0nat, empty_followers()),
                ));
            }
            let ghost mid = followers_view(*self);
            let ghost sub = followers_view(self.in_cluster@[i as int].2);
            let ghost count = self.in_cluster@[i as int].1;
            assert(mid.children[i as int] == (k.spec_bytes(), count as nat, sub));
            let entry = &mut self.in_cluster[i];
            entry.1 = tick_count(entry.1);
            entry.2.follow_with(keys, from + 1, next);
            proof {
                let new_entry = (k.spec_bytes(), tick(count as nat), follow(sub, path.drop_first(), next_view(next)));
                assert(followers_view(*self).children =~= mid.children.update(i as int, new_entry));
                if found {
                    assert(mid.children =~= old_view.children);
                } else {
                    assert(mid.children.update(i as int, new_entry) =~= old_view.children.insert(i as int, new_entry));
                }
                assert(followers_view(*self).beyond =~= old_view.beyond);
            }
        } else {
            match next {
                Some((t, set)) => {
                    proof {
                        assert(key_list(self.beyond_cluster@) =~= old_view.beyond.map_values(
                            |e: (Seq<u8>, nat, Seq<(Seq<u8>, nat)>)| e.0,
                        ));
                    }
                    let (found, i) = locate(&self.beyond_cluster, t);
                    if !found {
                        let fresh: Vec<(&'static str, usize)> = Vec::new();
                        assert(name_counts(fresh@) =~= Seq::<(Seq<u8>, nat)>::empty());
                        self.beyond_cluster.insert(i, (t, 0, fresh));
                        assert(followers_view(*self).beyond =~= old_view.beyond.insert(
                            i as int,
                            (t.spec_bytes(), 0nat, Seq::<(Seq<u8>, nat)>::empty()),
                        ));
                    }
                    let ghost mid = followers_view(*self);
                    let entry = &mut self.beyond_cluster[i];
                    entry.1 = tick_count(entry.1);
                    count_in(&mut entry.2, set);
                    proof {
                        assert(followers_view(*self).children =~= old_view.children);
                        let new_entry = (
                            t.spec_bytes(),
                            tick(mid.beyond[i as int].1),
                            count_name(mid.beyond[i as int].2, set.spec_bytes()),
                        );
                        assert(followers_view(*self).beyond =~= mid.beyond.update(i as int, new_entry));
                        if found {
                            assert(mid.beyond =~= old_view.beyond);
                        } else {
                            assert(mid.beyond.update(i as int, new_entry) =~= old_view.beyond.insert(i as int, new_entry));
                        }
                    }
                },
                None => {
                    self.end_of_word = tick_count(self.end_of_word);
                    assert(followers_view(*self).children =~= old_view.children);
                    assert(followers_view(*self).beyond =~= old_view.beyond);
                },
            }
        }
    }
}

fn compare_lists<T: NameKeyed>(a: &Vec<T>, b: &Vec<T>) -> (r: Rank)
    ensures
        r == Rank::Equal <==> key_list(a@) == key_list(b@),
        r == Rank::Less <==> list_less(key_list(a@), key_list(b@)),
{
    let ghost x = key_list(a@);
    let ghost y = key_list(b@);
    let mut i: usize = 0;
    proof {
        assert(x.skip(0) =~= x);
        assert(y.skip(0) =~= y);
    }
    while i < a.len() && i < b.len()
        invariant
            i <= a@.len(),
            i <= b@.len(),
            x == key_list(a@),
            y == key_list(b@),
            x.take(i as int) == y.take(i as int),
            list_less(x, y) == list_less(x.skip(i as int), y.skip(i as int)),
        decreases a@.len() - i,
    {
        proof {
            assert(x.skip(i as int)[0] == x[i as int]);
            assert(y.skip(i as int)[0] == y[i as int]);
            assert(x.skip(i as int).drop_first() =~= x.skip(i + 1));
            assert(y.skip(i as int).drop_first() =~= y.skip(i + 1));
        }
        match compare_bytes(a[i].key_name().as_bytes(), b[i].key_name().as_bytes()) {
            Rank::Less => {
                proof {
                    assert(x[i as int] != y[i as int]);
                    assert(x.take(i + 1)[i as int] != y.take(i + 1)[i as int]);
                    assert(x.len() != y.len() || x != y);
                    if x == y {
                        assert(x[i as int] == y[i as int]);
                    }
                }
                return Rank::Less;
            },
            Rank::Greater => {
                proof {
                    crate::names::lemma_lex_order(x[i as int], y[i as int], x[i as int]);
                    if x == y {
                        assert(x[i as int] == y[i as int]);
                    }
                }
                return Rank::Greater;
            },
            Rank::Equal => {},
        }
        proof {
            assert(x.take(i + 1) =~= x.take(i as int).push(x[i as int]));
            assert(y.take(i + 1) =~= y.take(i as int).push(y[i as int]));
        }
        i = i + 1;
    }
    proof {
        if a@.len() == b@.len() {
            assert(x =~= x.take(i as int));
            assert(y =~= y.take(i as int));
        } else if i == a@.len() {
            assert(x.skip(i as int).len() == 0);
            assert(x.len() != y.len());
        } else {
            assert(y.skip(i as int).len() == 0);
            assert(x.len() != y.len());
        }
    }
    if a.len() < b.len() {
        Rank::Less
    } else if a.len() > b.len() {
        Rank::Greater
    } else {
        Rank::Equal
    }
}

impl NameKeyed for Phoneme {
    open spec fn key_bytes(&self) -> Seq<u8> {
        self.name.spec_bytes()
    }

    fn key_name(&self) -> (r: &'static str) {
        self.name
    }
}

/// An entry kept in order by a sequence of names.
pub trait ListKeyed<T: NameKeyed> {
    /// The names the entry is kept by, as UTF-8 bytes.
    spec fn key_names(&self) -> Seq<Seq<u8>>;

    /// The items whose names the entry is kept by.
    fn key_items(&self) -> (r: &Vec<T>)
        ensures
            key_list(r@) == self.key_names(),
    ;
}

impl<T: NameKeyed, A> ListKeyed<T> for (Vec<T>, A) {
    open spec fn key_names(&self) -> Seq<Seq<u8>> {
        key_list(self.0@)
    }

    fn key_items(&self) -> (r: &Vec<T>) {
        &self.0
    }
}

impl<T: NameKeyed, A, B> ListKeyed<T> for (Vec<T>, A, B) {
    open spec fn key_names(&self) -> Seq<Seq<u8>> {
        key_list(self.0@)
    }

    fn key_items(&self) -> (r: &Vec<T>) {
        &self.0
    }
}

/// The name sequences that entries are kept by.
pub open spec fn list_keys<T: NameKeyed, E: ListKeyed<T>>(entries: Seq<E>) -> Seq<Seq<Seq<u8>>> {
    entries.map_values(|e: E| e.key_names())
}

fn locate_list<T: NameKeyed, E: ListKeyed<T>>(entries: &Vec<E>, k: &Vec<T>) -> (r: (bool, usize))
    ensures
        (r.0, r.1 as int) == list_slot(list_keys::<T, E>(entries@), key_list(k@)),
        r.1 <= entries@.len(),
        r.0 ==> r.1 < entries@.len() && entries@[r.1 as int].key_names() == key_list(k@),
{
    let ghost keys = list_keys::<T, E>(entries@);
    let ghost want = key_list(k@);
    let mut i: usize = 0;
    proof {
        assert(keys.skip(0) =~= keys);
    }
    while i < entries.len()
        invariant
            i <= entries@.len(),
            keys == list_keys::<T, E>(entries@),
            want == key_list(k@),
            list_slot(keys, want) == (list_slot(keys.skip(i as int), want).0, list_slot(keys.skip(i as int), want).1
                + i),
        decreases entries@.len() - i,
    {
        let items = entries[i].key_items();
        proof {
            assert(keys.skip(i as int)[0] == keys[i as int]);
            assert(keys.skip(i as int).drop_first() =~= keys.skip(i + 1));
        }
        match compare_lists(items, k) {
            Rank::Equal => {
                return (true, i);
            },
            Rank::Less => {},
            Rank::Greater => {
                proof {
                    lemma_list_order(key_list(items@), want);
                }
                return (false, i);
            },
        }
        i = i + 1;
    }
    proof {
        assert(keys.skip(i as int).len() == 0);
    }
    (false, i)
}

/// `list_less` is asymmetric.
proof fn lemma_list_order(a: Seq<Seq<u8>>, b: Seq<Seq<u8>>)
    ensures
        !(list_less(a, b) && list_less(b, a)),
        !list_less(a, a),
    decreases a.len(),
{
    if a.len() > 0 && b.len() > 0 {
        crate::names::lemma_lex_order(a[0], b[0], a[0]);
        lemma_list_order(a.drop_first(), b.drop_first());
    }
    if a.len() > 0 {
        lemma_list_order(a.drop_first(), a.drop_first());
    }
}

/// The phoneme sequences of a cluster with the count of `k` one higher, as `count_name` says.
pub open spec fn count_list(examples: Seq<(Seq<Seq<u8>>, nat)>, k: Seq<Seq<u8>>) -> Seq<(Seq<Seq<u8>>, nat)> {
    let slot = list_slot(examples.map_values(|e: (Seq<Seq<u8>>, nat)| e.0), k);
    if slot.0 {
        examples.update(slot.1, (k, tick(examples[slot.1].1)))
    } else {
        examples.insert(slot.1, (k, tick(0)))
    }
}

/// The clusters of a position after a cluster is added: `key` is its structure sets, `phonemes`
/// its phonemes and `next` what comes after it. The tree counts the path of its structure sets,
/// and the cluster's key counts it and its phonemes.
pub open spec fn add_to_structure(
    s: StructureView,
    key: Seq<Seq<u8>>,
    phonemes: Seq<Seq<u8>>,
    next: Option<(Seq<u8>, Seq<u8>)>,
) -> StructureView {
    let tree = if key.len() > 0 {
        let slot = name_slot(s.tree.map_values(|e: (Seq<u8>, nat, FollowersView)| e.0), key[0]);
        let count = if slot.0 {
            s.tree[slot.1].1
        } else {
            0
        };
        let sub = if slot.0 {
            s.tree[slot.1].2
        } else {
            empty_followers()
        };
        let entry = (key[0], tick(count), follow(sub, key.drop_first(), next));
        if slot.0 {
            s.tree.update(slot.1, entry)
        } else {
            s.tree.insert(slot.1, entry)
        }
    } else {
        s.tree
    };
    let slot = list_slot(s.clusters.map_values(|e: (Seq<Seq<u8>>, nat, Seq<(Seq<Seq<u8>>, nat)>)| e.0), key);
    let count = if slot.0 {
        s.clusters[slot.1].1
    } else {
        0
    };
    let examples = if slot.0 {
        s.clusters[slot.1].2
    } else {
        Seq::empty()
    };
    let entry = (key, tick(count), count_list(examples, phonemes));
    StructureView {
        clusters: if slot.0 {
            s.clusters.update(slot.1, entry)
        } else {
            s.clusters.insert(slot.1, entry)
        },
        tree,
    }
}

/// Phoneme sequences by count as plain values.
pub open spec fn examples_view(examples: Seq<(Vec<Phoneme>, usize)>) -> Seq<(Seq<Seq<u8>>, nat)> {
    examples.map_values(|p: (Vec<Phoneme>, usize)| (views(p.0@), p.1 as nat))
}

fn count_phonemes(examples: &mut Vec<(Vec<Phoneme>, usize)>, phonemes: &Vec<Phoneme>)
    ensures
        examples_view(final(examples)@) == count_list(examples_view(old(examples)@), views(phonemes@)),
{
    let ghost before = examples_view(examples@);
    proof {
        assert forall|j: int| 0 <= j < examples@.len() implies #[trigger] key_list(examples@[j].0@) == views(
            examples@[j].0@,
        ) by {
            assert(key_list(examples@[j].0@) =~= views(examples@[j].0@));
        }
        assert(list_keys::<Phoneme, (Vec<Phoneme>, usize)>(examples@) =~= before.map_values(
            |e: (Seq<Seq<u8>>, nat)| e.0,
        ));
        assert(key_list(phonemes@) =~= views(phonemes@));
    }
    let (found, i) = locate_list(examples, phonemes);
    let copy = copy_phonemes(phonemes);
    if found {
        let c = examples[i].1;
        examples.set(i, (copy, tick_count(c)));
        assert(examples_view(examples@) =~= before.update(i as int, (views(phonemes@), tick(c as nat))));
    } else {
        examples.insert(i, (copy, tick_count(0)));
        assert(examples_view(examples@) =~= before.insert(i as int, (views(phonemes@), tick(0))));
    }
}

fn copy_phonemes(phonemes: &Vec<Phoneme>) -> (r: Vec<Phoneme>)
    ensures
        r@ == phonemes@,
{
    let mut r: Vec<Phoneme> = Vec::new();
    let mut i: usize = 0;
    while i < phonemes.len()
        invariant
            i <= phonemes@.len(),
            r@ == phonemes@.take(i as int),
        decreases phonemes@.len() - i,
    {
        r.push(phonemes[i]);
        assert(phonemes@.take(i + 1) =~= phonemes@.take(i as int).push(phonemes@[i as int]));
        i = i + 1;
    }
    assert(phonemes@.take(i as int) =~= phonemes@);
    r
}

fn copy_names(names: &Vec<&'static str>) -> (r: Vec<&'static str>)
    ensures
        r@ == names@,
{
    let mut r: Vec<&'static str> = Vec::new();
    let mut i: usize = 0;
    while i < names.len()
        invariant
            i <= names@.len(),
            r@ == names@.take(i as int),
        decreases names@.len() - i,
    {
        r.push(names[i]);
        assert(names@.take(i + 1) =~= names@.take(i as int).push(names@[i as int]));
        i = i + 1;
    }
    assert(names@.take(i as int) =~= names@);
    r
}


/// A position with no clusters.
pub open spec fn empty_structure() -> StructureView {
    StructureView { clusters: Seq::empty(), tree: Seq::empty() }
}

/// The clusters of a position as plain values.
pub open spec fn clusters_view(
    clusters: Seq<(Vec<&'static str>, usize, Vec<(Vec<Phoneme>, usize)>)>,
) -> Seq<(Seq<Seq<u8>>, nat, Seq<(Seq<Seq<u8>>, nat)>)> {
    clusters.map_values(
        |c: (Vec<&'static str>, usize, Vec<(Vec<Phoneme>, usize)>)| (name_bytes(c.0@), c.1 as nat, examples_view(c.2@)),
    )
}

impl ClusterInfoByStructureClasses {
    fn new() -> (r: Self)
        ensures
            structure_view(r) == empty_structure(),
    {
        let r = ClusterInfoByStructureClasses { clusters: Vec::new(), tree: Vec::new() };
        assert(structure_view(r).clusters =~= Seq::<(Seq<Seq<u8>>, nat, Seq<(Seq<Seq<u8>>, nat)>)>::empty());
        assert(structure_view(r).tree =~= Seq::<(Seq<u8>, nat, FollowersView)>::empty());
        r
    }

    proof fn lemma_view(s: ClusterInfoByStructureClasses)
        ensures
            structure_view(s).clusters == clusters_view(s.clusters@),
            structure_view(s).tree == tree_view(s.tree@),
    {
        assert(structure_view(s).clusters =~= clusters_view(s.clusters@));
    }

    fn add_tree(&mut self, key: &Vec<&'static str>, next: Option<(&'static str, &'static str)>)
        requires
            key@.len() > 0,
        ensures
            ({
                let t = tree_view(old(self).tree@);
                let slot = name_slot(t.map_values(|e: (Seq<u8>, nat, FollowersView)| e.0), key@[0].spec_bytes());
                let count = if slot.0 {
                    t[slot.1].1
                } else {
                    0
                };
                let sub = if slot.0 {
                    t[slot.1].2
                } else {
                    empty_followers()
                };
                let entry = (key@[0].spec_bytes(), tick(count), follow(sub, name_bytes(key@).skip(1), next_view(next)));
                tree_view(final(self).tree@) == if slot.0 {
                    t.update(slot.1, entry)
                } else {
                    t.insert(slot.1, entry)
                }
            }),
            final(self).clusters == old(self).clusters,
    {
        let ghost t = tree_view(self.tree@);
        let k = key[0];
        assert(key_list(self.tree@) =~= t.map_values(|e: (Seq<u8>, nat, FollowersView)| e.0));
        let (found, i) = locate(&self.tree, k);
        if !found {
            self.tree.insert(i, (k, 0, ClusterFollowers::new()));
            assert(tree_view(self.tree@) =~= t.insert(i as int, (k.spec_bytes(), 0nat, empty_followers())));
        }
        let ghost mid = tree_view(self.tree@);
        let entry = &mut self.tree[i];
        entry.1 = tick_count(entry.1);
        entry.2.follow_with(key, 1, next);
        proof {
            let new_entry = (
                k.spec_bytes(),
                tick(mid[i as int].1),
                follow(mid[i as int].2, name_bytes(key@).skip(1), next_view(next)),
            );
            assert(tree_view(self.tree@) =~= mid.update(i as int, new_entry));
            if found {
                assert(mid =~= t);
            } else {
                assert(mid.update(i as int, new_entry) =~= t.insert(i as int, new_entry));
            }
        }
    }

    fn add_example(&mut self, key: &Vec<&'static str>, phonemes: &Vec<Phoneme>)
        ensures
            ({
                let c = clusters_view(old(self).clusters@);
                let slot = list_slot(
                    c.map_values(|e: (Seq<Seq<u8>>, nat, Seq<(Seq<Seq<u8>>, nat)>)| e.0),
                    name_bytes(key@),
                );
                let count = if slot.0 {
                    c[slot.1].1
                } else {
                    0
                };
                let examples = if slot.0 {
                    c[slot.1].2
                } else {
                    Seq::empty()
                };
                let entry = (name_bytes(key@), tick(count), count_list(examples, views(phonemes@)));
                clusters_view(final(self).clusters@) == if slot.0 {
                    c.update(slot.1, entry)
                } else {
                    c.insert(slot.1, entry)
                }
            }),
            final(self).tree == old(self).tree,
    {
        let ghost c = clusters_view(self.clusters@);
        proof {
            assert forall|j: int| 0 <= j < self.clusters@.len() implies #[trigger] key_list(self.clusters@[j].0@)
                == name_bytes(self.clusters@[j].0@) by {
                assert(key_list(self.clusters@[j].0@) =~= name_bytes(self.clusters@[j].0@));
            }
            assert(list_keys::<&'static str, (Vec<&'static str>, usize, Vec<(Vec<Phoneme>, usize)>)>(self.clusters@)
                =~= c.map_values(|e: (Seq<Seq<u8>>, nat, Seq<(Seq<Seq<u8>>, nat)>)| e.0));
            assert(key_list(key@) =~= name_bytes(key@));
        }
        let (found, i) = locate_list(&self.clusters, key);
        if !found {
            let fresh: Vec<(Vec<Phoneme>, usize)> = Vec::new();
            assert(examples_view(fresh@) =~= Seq::<(Seq<Seq<u8>>, nat)>::empty());
            self.clusters.insert(i, (copy_names(key), 0, fresh));
            assert(clusters_view(self.clusters@) =~= c.insert(
                i as int,
                (name_bytes(key@), 0nat, Seq::<(Seq<Seq<u8>>, nat)>::empty()),
            ));
        }
        let ghost mid = clusters_view(self.clusters@);
        proof {
            if found {
                assert(mid[i as int].0 == name_bytes(key@));
            }
        }
        let entry = &mut self.clusters[i];
        entry.1 = tick_count(entry.1);
        count_phonemes(&mut entry.2, phonemes);
        proof {
            let new_entry = (name_bytes(key@), tick(mid[i as int].1), count_list(mid[i as int].2, views(phonemes@)));
            assert(clusters_view(self.clusters@) =~= mid.update(i as int, new_entry));
            if found {
                assert(mid =~= c);
            } else {
                assert(mid.update(i as int, new_entry) =~= c.insert(i as int, new_entry));
            }
        }
    }

    fn add_cluster(
        &mut self,
        key: &Vec<&'static str>,
        phonemes: &Vec<Phoneme>,
        next: Option<(&'static str, &'static str)>,
    )
        ensures
            structure_view(*final(self)) == add_to_structure(
                structure_view(*old(self)),
                name_bytes(key@),
                views(phonemes@),
                next_view(next),
            ),
    {
        proof {
            Self::lemma_view(*self);
        }
        let ghost before = structure_view(*self);
        if key.len() > 0 {
            self.add_tree(key, next);
        }
        self.add_example(key, phonemes);
        proof {
            Self::lemma_view(*self);
            let want = add_to_structure(before, name_bytes(key@), views(phonemes@), next_view(next));
            if key@.len() > 0 {
                assert(name_bytes(key@)[0] == key@[0].spec_bytes());
                assert(name_bytes(key@).drop_first() =~= name_bytes(key@).skip(1));
            }
            assert(structure_view(*self).tree == want.tree);
            assert(structure_view(*self).clusters == want.clusters);
        }
    }
}


/// The analysis of a cluster set with nothing in it.
pub open spec fn empty_info() -> SetInfoView {
    SetInfoView {
        initial: empty_structure(),
        medial: empty_structure(),
        final_: empty_structure(),
        counts: Seq::empty(),
    }
}

/// The analysis of a cluster set after a cluster is added: to the initial clusters when it
/// starts the word, to the final ones when it ends the word (both for a word of one cluster),
/// and to the medial ones otherwise.
pub open spec fn add_to_info(
    info: SetInfoView,
    initial: bool,
    final_: bool,
    key: Seq<Seq<u8>>,
    phonemes: Seq<Seq<u8>>,
    next: Option<(Seq<u8>, Seq<u8>)>,
) -> SetInfoView {
    SetInfoView {
        initial: if initial {
            add_to_structure(info.initial, key, phonemes, next)
        } else {
            info.initial
        },
        medial: if !initial && !final_ {
            add_to_structure(info.medial, key, phonemes, next)
        } else {
            info.medial
        },
        final_: if final_ {
            add_to_structure(info.final_, key, phonemes, next)
        } else {
            info.final_
        },
        counts: info.counts,
    }
}

/// The counts per word with the count of words that had `k` clusters one higher.
pub open spec fn count_number(counts: Seq<(nat, nat)>, k: nat) -> Seq<(nat, nat)> {
    let slot = number_slot(counts.map_values(|e: (nat, nat)| e.0), k);
    if slot.0 {
        counts.update(slot.1, (k, tick(counts[slot.1].1)))
    } else {
        counts.insert(slot.1, (k, tick(0)))
    }
}

/// The cluster sets of an analysis.
pub open spec fn result_keys(r: Seq<(Seq<u8>, SetInfoView)>) -> Seq<Seq<u8>> {
    r.map_values(|e: (Seq<u8>, SetInfoView)| e.0)
}

/// The analysis after the analysis of cluster set `set` is changed by `change`; a set not
/// there yet comes in at its place in the order, with nothing in it before the change.
pub open spec fn change_set(
    r: Seq<(Seq<u8>, SetInfoView)>,
    set: Seq<u8>,
    change: spec_fn(SetInfoView) -> SetInfoView,
) -> Seq<(Seq<u8>, SetInfoView)> {
    let slot = name_slot(result_keys(r), set);
    if slot.0 {
        r.update(slot.1, (set, change(r[slot.1].1)))
    } else {
        r.insert(slot.1, (set, change(empty_info())))
    }
}

/// The analysis after a cluster of cluster set `set` is added.
pub open spec fn record_cluster(
    r: Seq<(Seq<u8>, SetInfoView)>,
    set: Seq<u8>,
    initial: bool,
    final_: bool,
    key: Seq<Seq<u8>>,
    phonemes: Seq<Seq<u8>>,
    next: Option<(Seq<u8>, Seq<u8>)>,
) -> Seq<(Seq<u8>, SetInfoView)> {
    change_set(r, set, |info: SetInfoView| add_to_info(info, initial, final_, key, phonemes, next))
}

/// The analysis after one more word of cluster set `set` is counted as having `count` clusters.
pub open spec fn record_count(r: Seq<(Seq<u8>, SetInfoView)>, set: Seq<u8>, count: nat) -> Seq<
    (Seq<u8>, SetInfoView),
> {
    change_set(
        r,
        set,
        |info: SetInfoView|
            SetInfoView {
                initial: info.initial,
                medial: info.medial,
                final_: info.final_,
                counts: count_number(info.counts, count),
            },
    )
}

/// The analysis after the counts of clusters of one word are recorded, set by set.
pub open spec fn record_counts(r: Seq<(Seq<u8>, SetInfoView)>, counts: Seq<(Seq<u8>, nat)>) -> Seq<
    (Seq<u8>, SetInfoView),
>
    decreases counts.len(),
{
    if counts.len() == 0 {
        r
    } else {
        record_count(record_counts(r, counts.drop_last()), counts.last().0, counts.last().1)
    }
}

fn locate_number(entries: &Vec<(usize, usize)>, k: usize) -> (r: (bool, usize))
    ensures
        (r.0, r.1 as int) == number_slot(entries@.map_values(|e: (usize, usize)| e.0 as nat), k as nat),
        r.1 <= entries@.len(),
        r.0 ==> r.1 < entries@.len() && entries@[r.1 as int].0 == k,
{
    let ghost keys = entries@.map_values(|e: (usize, usize)| e.0 as nat);
    let mut i: usize = 0;
    proof {
        assert(keys.skip(0) =~= keys);
    }
    while i < entries.len()
        invariant
            i <= entries@.len(),
            keys == entries@.map_values(|e: (usize, usize)| e.0 as nat),
            number_slot(keys, k as nat) == (number_slot(keys.skip(i as int), k as nat).0, number_slot(
                keys.skip(i as int),
                k as nat,
            ).1 + i),
        decreases entries@.len() - i,
    {
        proof {
            assert(keys.skip(i as int)[0] == keys[i as int]);
            assert(keys.skip(i as int).drop_first() =~= keys.skip(i + 1));
        }
        let n = entries[i].0;
        if n == k {
            return (true, i);
        } else if n > k {
            return (false, i);
        }
        i = i + 1;
    }
    proof {
        assert(keys.skip(i as int).len() == 0);
    }
    (false, i)
}

impl ClusterSetInfo {
    fn new() -> (r: Self)
        ensures
            set_info_view(r) == empty_info(),
    {
        let r = ClusterSetInfo {
            initial: ClusterInfoByStructureClasses::new(),
            medial: ClusterInfoByStructureClasses::new(),
            final_: ClusterInfoByStructureClasses::new(),
            counts_per_word: Vec::new(),
        };
        assert(set_info_view(r).counts =~= Seq::<(nat, nat)>::empty());
        r
    }

    fn add_cluster(
        &mut self,
        key: &Vec<&'static str>,
        phonemes: &Vec<Phoneme>,
        initial: bool,
        final_: bool,
        next: Option<(&'static str, &'static str)>,
    )
        ensures
            set_info_view(*final(self)) == add_to_info(
                set_info_view(*old(self)),
                initial,
                final_,
                name_bytes(key@),
                views(phonemes@),
                next_view(next),
            ),
    {
        if initial {
            if final_ {
                self.final_.add_cluster(key, phonemes, next);
            }
            self.initial.add_cluster(key, phonemes, next);
        } else if final_ {
            self.final_.add_cluster(key, phonemes, next);
        } else {
            self.medial.add_cluster(key, phonemes, next);
        }
    }

    fn count_word(&mut self, count: usize)
        ensures
            set_info_view(*final(self)) == (SetInfoView {
                initial: set_info_view(*old(self)).initial,
                medial: set_info_view(*old(self)).medial,
                final_: set_info_view(*old(self)).final_,
                counts: count_number(set_info_view(*old(self)).counts, count as nat),
            }),
    {
        let ghost before = set_info_view(*self).counts;
        let (found, i) = locate_number(&self.counts_per_word, count);
        assert(self.counts_per_word@.map_values(|e: (usize, usize)| e.0 as nat) =~= before.map_values(
            |e: (nat, nat)| e.0,
        ));
        if found {
            let c = self.counts_per_word[i].1;
            self.counts_per_word.set(i, (count, tick_count(c)));
            assert(set_info_view(*self).counts =~= before.update(i as int, (count as nat, tick(c as nat))));
        } else {
            self.counts_per_word.insert(i, (count, tick_count(0)));
            assert(set_info_view(*self).counts =~= before.insert(i as int, (count as nat, tick(0))));
        }
    }
}

impl AnalysisResults {
    /// An analysis of no words.
    pub fn new() -> (r: Self)
        ensures
            r@ == Seq::<(Seq<u8>, SetInfoView)>::empty(),
    {
        let r = AnalysisResults { info_by_set: Vec::new() };
        assert(r@ =~= Seq::<(Seq<u8>, SetInfoView)>::empty());
        r
    }

    fn entry_for(&mut self, set: &'static str) -> (r: usize)
        ensures
            ({
                let slot = name_slot(result_keys(old(self)@), set.spec_bytes());
                &&& r == slot.1
                &&& final(self)@ == if slot.0 {
                    old(self)@
                } else {
                    old(self)@.insert(slot.1, (set.spec_bytes(), empty_info()))
                }
                &&& r < final(self)@.len()
                &&& final(self)@[r as int].0 == set.spec_bytes()
            }),
    {
        let ghost before = self@;
        assert(key_list(self.info_by_set@) =~= result_keys(before));
        let (found, i) = locate(&self.info_by_set, set);
        if !found {
            self.info_by_set.insert(i, (set, ClusterSetInfo::new()));
            assert(self@ =~= before.insert(i as int, (set.spec_bytes(), empty_info())));
        } else {
            assert(self@[i as int].0 == set.spec_bytes());
        }
        i
    }

    fn add_cluster(
        &mut self,
        set: &'static str,
        key: &Vec<&'static str>,
        phonemes: &Vec<Phoneme>,
        initial: bool,
        final_: bool,
        next: Option<(&'static str, &'static str)>,
    )
        ensures
            final(self)@ == record_cluster(
                old(self)@,
                set.spec_bytes(),
                initial,
                final_,
                name_bytes(key@),
                views(phonemes@),
                next_view(next),
            ),
    {
        let ghost before = self@;
        let i = self.entry_for(set);
        let ghost mid = self@;
        let entry = &mut self.info_by_set[i];
        entry.1.add_cluster(key, phonemes, initial, final_, next);
        proof {
            let change = |info: SetInfoView|
                add_to_info(info, initial, final_, name_bytes(key@), views(phonemes@), next_view(next));
            let slot = name_slot(result_keys(before), set.spec_bytes());
            lemma_name_slot_bound(result_keys(before), set.spec_bytes());
            assert(self@ =~= mid.update(i as int, (set.spec_bytes(), change(mid[i as int].1))));
            if slot.0 {
                assert(mid == before);
            } else {
                assert(mid.update(i as int, (set.spec_bytes(), change(mid[i as int].1))) =~= before.insert(
                    i as int,
                    (set.spec_bytes(), change(empty_info())),
                ));
            }
        }
    }

    fn add_count(&mut self, set: &'static str, count: usize)
        ensures
            final(self)@ == record_count(old(self)@, set.spec_bytes(), count as nat),
    {
        let ghost before = self@;
        let i = self.entry_for(set);
        let ghost mid = self@;
        let entry = &mut self.info_by_set[i];
        entry.1.count_word(count);
        proof {
            let change = |info: SetInfoView|
                SetInfoView {
                    initial: info.initial,
                    medial: info.medial,
                    final_: info.final_,
                    counts: count_number(info.counts, count as nat),
                };
            let slot = name_slot(result_keys(before), set.spec_bytes());
            lemma_name_slot_bound(result_keys(before), set.spec_bytes());
            assert(self@ =~= mid.update(i as int, (set.spec_bytes(), change(mid[i as int].1))));
            if slot.0 {
                assert(mid == before);
            } else {
                assert(mid.update(i as int, (set.spec_bytes(), change(mid[i as int].1))) =~= before.insert(
                    i as int,
                    (set.spec_bytes(), change(empty_info())),
                ));
            }
        }
    }

    fn add_counts(&mut self, counts: &Vec<(&'static str, usize)>)
        ensures
            final(self)@ == record_counts(old(self)@, name_counts(counts@)),
    {
        let ghost before = self@;
        let ghost view = name_counts(counts@);
        let mut i: usize = 0;
        while i < counts.len()
            invariant
                i <= counts@.len(),
                view == name_counts(counts@),
                self@ == record_counts(before, view.take(i as int)),
            decreases counts@.len() - i,
        {
            self.add_count(counts[i].0, counts[i].1);
            proof {
                assert(view.take(i + 1).drop_last() =~= view.take(i as int));
                assert(view.take(i + 1).last() == view[i as int]);
            }
            i = i + 1;
        }
        proof {
            assert(view.take(i as int) =~= view);
        }
    }
}


/// The sets the analysis sorts phonemes by: cluster sets, whose runs make the clusters of a
/// word, and structure sets, which describe the phonemes inside a cluster. Each phoneme must be
/// in exactly one set of each list.
#[derive(Debug)]
pub struct AnalysisConfig {
    pub cluster_sets: Vec<&'static str>,
    pub structure_sets: Vec<&'static str>,
}

/// The sets of the rows of a table definition, for definitions that have rows.
pub open spec fn row_set_names(def: TableDef) -> Option<Seq<&'static str>> {
    match def {
        TableDef::OneCell(_) => None,
        TableDef::ListTable(d) => Some(d.rows_by_set.entry_list().map_values(|e: (&'static str, HeaderDef)| e.0)),
        TableDef::SimpleTable(d) => Some(d.rows_by_set.entry_list().map_values(|e: (&'static str, HeaderDef)| e.0)),
        TableDef::TableWithSubcolumns(d) => Some(
            d.rows_by_set.entry_list().map_values(|e: (&'static str, HeaderDef)| e.0),
        ),
        TableDef::TableWithSubcolumnsAndSubrows(d) => Some(
            d.rows_by_set.entry_list().map_values(|e: (&'static str, HeaderDef)| e.0),
        ),
    }
}

/// A list of names in ascending order with `k` added, unless a name with its bytes is there.
pub open spec fn insert_name(list: Seq<&'static str>, k: &'static str) -> Seq<&'static str> {
    let slot = name_slot(name_bytes(list), k.spec_bytes());
    if slot.0 {
        list
    } else {
        list.insert(slot.1, k)
    }
}

/// A list of names in ascending order with each of `names` added, as `insert_name` says.
pub open spec fn insert_names(list: Seq<&'static str>, names: Seq<&'static str>) -> Seq<&'static str>
    decreases names.len(),
{
    if names.len() == 0 {
        list
    } else {
        insert_name(insert_names(list, names.drop_last()), names.last())
    }
}

/// The structure sets the tables give: the sets of their rows, or the set of a table without
/// rows, each once, in ascending order.
pub open spec fn table_structure_sets(tables: Seq<TableEntry>) -> Seq<&'static str>
    decreases tables.len(),
{
    if tables.len() == 0 {
        Seq::empty()
    } else {
        let before = table_structure_sets(tables.drop_last());
        match row_set_names(tables.last().definition) {
            Some(rows) => insert_names(before, rows),
            None => insert_name(before, tables.last().set),
        }
    }
}

fn insert_name_in(list: &mut Vec<&'static str>, k: &'static str)
    ensures
        final(list)@ == insert_name(old(list)@, k),
{
    assert(key_list(list@) =~= name_bytes(list@));
    let (found, i) = locate(list, k);
    if !found {
        list.insert(i, k);
    }
}

fn insert_names_in(list: &mut Vec<&'static str>, names: &Vec<&'static str>)
    ensures
        final(list)@ == insert_names(old(list)@, names@),
{
    let ghost start = list@;
    let mut i: usize = 0;
    while i < names.len()
        invariant
            i <= names@.len(),
            list@ == insert_names(start, names@.take(i as int)),
        decreases names@.len() - i,
    {
        insert_name_in(list, names[i]);
        proof {
            assert(names@.take(i + 1).drop_last() =~= names@.take(i as int));
        }
        i = i + 1;
    }
    proof {
        assert(names@.take(i as int) =~= names@);
    }
}

impl AnalysisConfig {
    /// The sets of a language's analysis: the cluster sets and structure sets it was given, and
    /// where one was not given, what its phoneme tables give: as cluster sets the set of each
    /// table, in order; as structure sets those of `table_structure_sets`.
    pub fn from_language(
        cluster_sets: Option<Vec<&'static str>>,
        structure_sets: Option<Vec<&'static str>>,
        tables: &Vec<TableEntry>,
    ) -> (r: Self)
        ensures
            r.cluster_sets@ == match cluster_sets {
                Some(c) => c@,
                None => tables@.map_values(|t: TableEntry| t.set),
            },
            r.structure_sets@ == match structure_sets {
                Some(s) => s@,
                None => table_structure_sets(tables@),
            },
    {
        let clusters = match cluster_sets {
            Some(c) => c,
            None => {
                let mut c: Vec<&'static str> = Vec::new();
                let mut i: usize = 0;
                while i < tables.len()
                    invariant
                        i <= tables@.len(),
                        c@ == tables@.take(i as int).map_values(|t: TableEntry| t.set),
                    decreases tables@.len() - i,
                {
                    c.push(tables[i].set());
                    proof {
                        assert(tables@.take(i + 1).map_values(|t: TableEntry| t.set) =~= tables@.take(
                            i as int,
                        ).map_values(|t: TableEntry| t.set).push(tables@[i as int].set));
                    }
                    i = i + 1;
                }
                proof {
                    assert(tables@.take(i as int) =~= tables@);
                }
                c
            },
        };
        let structures = match structure_sets {
            Some(s) => s,
            None => {
                let mut s: Vec<&'static str> = Vec::new();
                let mut i: usize = 0;
                while i < tables.len()
                    invariant
                        i <= tables@.len(),
                        s@ == table_structure_sets(tables@.take(i as int)),
                    decreases tables@.len() - i,
                {
                    let table = &tables[i];
                    proof {
                        assert(tables@.take(i + 1).drop_last() =~= tables@.take(i as int));
                    }
                    match table.definition().row_sets() {
                        Some(rows) => insert_names_in(&mut s, &rows),
                        None => insert_name_in(&mut s, table.set()),
                    }
                    i = i + 1;
                }
                proof {
                    assert(tables@.take(i as int) =~= tables@);
                }
                s
            },
        };
        AnalysisConfig { cluster_sets: clusters, structure_sets: structures }
    }
}

/// What looking a phoneme up in a list of sets finds: the first set that holds it, a set that
/// the inventory does not have, or nothing.
pub enum SetSearch {
    Found(&'static str),
    Unknown(&'static str),
    Missing,
}

/// The first of `sets` that holds the phoneme named `p`, going through them in order and
/// stopping at a set the inventory does not have.
pub open spec fn first_set(inventory: Inventory, p: Seq<u8>, sets: Seq<&'static str>) -> SetSearch
    decreases sets.len(),
{
    if sets.len() == 0 {
        SetSearch::Missing
    } else if !inventory.has_set(sets[0].spec_bytes()) {
        SetSearch::Unknown(sets[0])
    } else if members(inventory.set_named(sets[0].spec_bytes())).contains(p) {
        SetSearch::Found(sets[0])
    } else {
        first_set(inventory, p, sets.drop_first())
    }
}

/// The names of some sets, joined by `, `.
pub open spec fn comma_joined(sets: Seq<&'static str>) -> Seq<char>
    decreases sets.len(),
{
    if sets.len() == 0 {
        Seq::empty()
    } else if sets.len() == 1 {
        sets[0]@
    } else {
        comma_joined(sets.drop_last()) + ", "@ + sets.last()@
    }
}

/// Whether `e` is the error for a phoneme named `p` that is in no set of `sets`.
pub open spec fn uncovered_error(e: ElbieError, p: Seq<u8>, sets: Seq<&'static str>) -> bool {
    e matches ElbieError::AnalysisSetCoverageIsIncomplete(n, list) && n.spec_bytes() == p && list@ == comma_joined(
        sets,
    )
}

/// Whether `e` is the error of a lookup that did not find a set.
pub open spec fn search_error(e: ElbieError, p: Seq<u8>, sets: Seq<&'static str>, search: SetSearch) -> bool {
    match search {
        SetSearch::Found(_) => false,
        SetSearch::Unknown(set) => e == ElbieError::UnknownSet(set),
        SetSearch::Missing => uncovered_error(e, p, sets),
    }
}

fn join_sets(sets: &Vec<&'static str>) -> (r: String)
    ensures
        r@ == comma_joined(sets@),
{
    let mut out = String::new();
    let mut i: usize = 0;
    while i < sets.len()
        invariant
            i <= sets@.len(),
            out@ == comma_joined(sets@.take(i as int)),
        decreases sets@.len() - i,
    {
        if i > 0 {
            out.append(", ");
        }
        out.append(sets[i]);
        proof {
            assert(sets@.take(i + 1).drop_last() =~= sets@.take(i as int));
            if i == 0 {
                assert(sets@.take(1)[0] == sets@[0]);
            }
        }
        i = i + 1;
    }
    proof {
        assert(sets@.take(i as int) =~= sets@);
    }
    out
}

/// The first of `sets` that holds the phoneme, as `first_set` says. A set the inventory does
/// not have is an error, and so is a phoneme in none of them.
pub fn find_set_for(inventory: &Inventory, phoneme: &Phoneme, sets: &Vec<&'static str>) -> (r: Result<
    &'static str,
    ElbieError,
>)
    ensures
        match first_set(*inventory, phoneme@, sets@) {
            SetSearch::Found(s) => r == Ok::<&'static str, ElbieError>(s),
            other => r matches Err(e) && search_error(e, phoneme@, sets@, other),
        },
{
    let mut i: usize = 0;
    proof {
        assert(sets@.skip(0) =~= sets@);
    }
    while i < sets.len()
        invariant
            i <= sets@.len(),
            first_set(*inventory, phoneme@, sets@) == first_set(*inventory, phoneme@, sets@.skip(i as int)),
        decreases sets@.len() - i,
    {
        proof {
            assert(sets@.skip(i as int)[0] == sets@[i as int]);
            assert(sets@.skip(i as int).drop_first() =~= sets@.skip(i + 1));
        }
        if inventory.phoneme_is(phoneme, sets[i])? {
            return Ok(sets[i]);
        }
        i = i + 1;
    }
    proof {
        assert(sets@.skip(i as int).len() == 0);
    }
    Err(ElbieError::AnalysisSetCoverageIsIncomplete(phoneme.name, join_sets(sets)))
}

/// How a phoneme stands towards a list of sets that should each hold it or not, exactly one
/// holding it: the one set that holds it, two sets that both hold it, a set the inventory does
/// not have, or no set that holds it.
pub enum Coverage {
    Single(&'static str),
    Clash(&'static str, &'static str),
    Unknown(&'static str),
    Uncovered,
}

/// How the phoneme named `p` stands towards `sets`, going through them in order, where `found`
/// is the set that held it among those before.
pub open spec fn coverage(inventory: Inventory, p: Seq<u8>, sets: Seq<&'static str>, found: Option<&'static str>) -> Coverage
    decreases sets.len(),
{
    if sets.len() == 0 {
        match found {
            Some(s) => Coverage::Single(s),
            None => Coverage::Uncovered,
        }
    } else if !inventory.has_set(sets[0].spec_bytes()) {
        Coverage::Unknown(sets[0])
    } else if members(inventory.set_named(sets[0].spec_bytes())).contains(p) {
        match found {
            Some(previous) => Coverage::Clash(sets[0], previous),
            None => coverage(inventory, p, sets.drop_first(), Some(sets[0])),
        }
    } else {
        coverage(inventory, p, sets.drop_first(), found)
    }
}

/// Whether `e` is the error for a phoneme named `p` whose coverage by `sets` is `c`.
pub open spec fn coverage_error(e: ElbieError, p: Seq<u8>, sets: Seq<&'static str>, c: Coverage) -> bool {
    match c {
        Coverage::Single(_) => false,
        Coverage::Clash(set, previous) => e matches ElbieError::AnalysisSetIsNonExclusive(n, s, before)
            && n.spec_bytes() == p && s == set && before == previous,
        Coverage::Unknown(set) => e == ElbieError::UnknownSet(set),
        Coverage::Uncovered => uncovered_error(e, p, sets),
    }
}

fn check_coverage(inventory: &Inventory, phoneme: &Phoneme, sets: &Vec<&'static str>) -> (r: Result<(), ElbieError>)
    ensures
        r is Ok <==> coverage(*inventory, phoneme@, sets@, None) is Single,
        r matches Err(e) ==> coverage_error(e, phoneme@, sets@, coverage(*inventory, phoneme@, sets@, None)),
{
    let mut found: Option<&'static str> = None;
    let mut i: usize = 0;
    proof {
        assert(sets@.skip(0) =~= sets@);
    }
    while i < sets.len()
        invariant
            i <= sets@.len(),
            coverage(*inventory, phoneme@, sets@, None) == coverage(*inventory, phoneme@, sets@.skip(i as int), found),
        decreases sets@.len() - i,
    {
        proof {
            assert(sets@.skip(i as int)[0] == sets@[i as int]);
            assert(sets@.skip(i as int).drop_first() =~= sets@.skip(i + 1));
        }
        if inventory.phoneme_is(phoneme, sets[i])? {
            match found {
                Some(previous) => {
                    return Err(ElbieError::AnalysisSetIsNonExclusive(phoneme.name, sets[i], previous));
                },
                None => {
                    found = Some(sets[i]);
                },
            }
        }
        i = i + 1;
    }
    proof {
        assert(sets@.skip(i as int).len() == 0);
    }
    match found {
        Some(_) => Ok(()),
        None => Err(ElbieError::AnalysisSetCoverageIsIncomplete(phoneme.name, join_sets(sets))),
    }
}

/// Whether every phoneme of the inventory is in exactly one set of each list.
pub open spec fn config_valid(inventory: Inventory, cluster_sets: Seq<&'static str>, structure_sets: Seq<&'static str>) -> bool {
    forall|k: int|
        0 <= k < inventory.phoneme_names().len() ==> coverage(
            inventory,
            #[trigger] inventory.phoneme_names()[k],
            cluster_sets,
            None,
        ) is Single && coverage(inventory, inventory.phoneme_names()[k], structure_sets, None) is Single
}

impl AnalysisConfig {
    /// Checks that every phoneme of the inventory is in exactly one cluster set and exactly one
    /// structure set. The error is that of the first phoneme, in ascending order of name, that
    /// is not: for its cluster sets if they fail it, else for its structure sets.
    pub fn validate(&self, inventory: &Inventory) -> (r: Result<(), ElbieError>)
        ensures
            r is Ok <==> config_valid(*inventory, self.cluster_sets@, self.structure_sets@),
            r matches Err(e) ==> exists|k: int|
                #![trigger inventory.phoneme_names()[k]]
                0 <= k < inventory.phoneme_names().len() && {
                    let p = inventory.phoneme_names()[k];
                    let c = coverage(*inventory, p, self.cluster_sets@, None);
                    &&& forall|j: int|
                        0 <= j < k ==> coverage(
                            *inventory,
                            #[trigger] inventory.phoneme_names()[j],
                            self.cluster_sets@,
                            None,
                        ) is Single && coverage(
                            *inventory,
                            inventory.phoneme_names()[j],
                            self.structure_sets@,
                            None,
                        ) is Single
                    &&& if c is Single {
                        coverage_error(e, p, self.structure_sets@, coverage(*inventory, p, self.structure_sets@, None))
                    } else {
                        coverage_error(e, p, self.cluster_sets@, c)
                    }
                },
    {
        let phonemes = inventory.phonemes().items();
        let ghost names = inventory.phoneme_names();
        assert(views(phonemes@) == names);
        let mut k: usize = 0;
        while k < phonemes.len()
            invariant
                k <= phonemes@.len(),
                views(phonemes@) == names,
                names == inventory.phoneme_names(),
                forall|j: int|
                    0 <= j < k ==> coverage(*inventory, #[trigger] names[j], self.cluster_sets@, None) is Single
                        && coverage(*inventory, names[j], self.structure_sets@, None) is Single,
            decreases phonemes@.len() - k,
        {
            let phoneme = &phonemes[k];
            assert(names[k as int] == phoneme@);
            check_coverage(inventory, phoneme, &self.cluster_sets)?;
            check_coverage(inventory, phoneme, &self.structure_sets)?;
            k = k + 1;
        }
        Ok(())
    }
}


/// The name of a set found, as UTF-8 bytes; empty when none was.
pub open spec fn found_bytes(search: SetSearch) -> Seq<u8> {
    match search {
        SetSearch::Found(s) => s.spec_bytes(),
        _ => Seq::empty(),
    }
}

/// For each phoneme of a word, the name of the first of `sets` that holds it.
pub open spec fn word_sets(inventory: Inventory, sets: Seq<&'static str>, word: Seq<Seq<u8>>) -> Seq<Seq<u8>> {
    word.map_values(|p: Seq<u8>| found_bytes(first_set(inventory, p, sets)))
}

/// Whether a set of `sets` holds each phoneme of the word.
pub open spec fn covered(inventory: Inventory, sets: Seq<&'static str>, word: Seq<Seq<u8>>) -> bool {
    forall|i: int| 0 <= i < word.len() ==> #[trigger] first_set(inventory, word[i], sets) is Found
}

/// The runs of equal values in a sequence, as start and end indexes, in order.
pub open spec fn runs(values: Seq<Seq<u8>>) -> Seq<(int, int)>
    decreases values.len(),
{
    if values.len() == 0 {
        Seq::empty()
    } else {
        let before = runs(values.drop_last());
        let n = values.len() - 1;
        if n > 0 && values[n - 1] == values[n] {
            before.update(before.len() - 1, (before.last().0, n + 1))
        } else {
            before.push((n, n + 1))
        }
    }
}

/// The analysis after the first `k` clusters of a word are added. The clusters are the runs of
/// phonemes with the same cluster set; each is keyed by the structure sets of its phonemes, is
/// initial when it is the first, final when it is the last, and is followed by the cluster set
/// and structure set of the phoneme after it.
#[verifier::opaque]
pub open spec fn record_runs(
    r: Seq<(Seq<u8>, SetInfoView)>,
    inventory: Inventory,
    cluster_sets: Seq<&'static str>,
    structure_sets: Seq<&'static str>,
    word: Seq<Seq<u8>>,
    k: int,
) -> Seq<(Seq<u8>, SetInfoView)>
    decreases k,
{
    if k <= 0 {
        r
    } else {
        let cs = word_sets(inventory, cluster_sets, word);
        let ss = word_sets(inventory, structure_sets, word);
        let rs = runs(cs);
        let run = rs[k - 1];
        let last = k == rs.len();
        let next = if last {
            None
        } else {
            Some((cs[run.1], ss[run.1]))
        };
        record_cluster(
            record_runs(r, inventory, cluster_sets, structure_sets, word, k - 1),
            cs[run.0],
            k == 1,
            last,
            ss.subrange(run.0, run.1),
            word.subrange(run.0, run.1),
            next,
        )
    }
}

/// Each cluster set once, in ascending order, with a count of 0.
pub open spec fn zero_counts(sets: Seq<&'static str>) -> Seq<(Seq<u8>, nat)>
    decreases sets.len(),
{
    if sets.len() == 0 {
        Seq::empty()
    } else {
        let before = zero_counts(sets.drop_last());
        let slot = name_slot(count_keys(before), sets.last().spec_bytes());
        if slot.0 {
            before
        } else {
            before.insert(slot.1, (sets.last().spec_bytes(), 0nat))
        }
    }
}

/// The counts with the count of `k` one higher, when `k` is there.
pub open spec fn bump_count(counts: Seq<(Seq<u8>, nat)>, k: Seq<u8>) -> Seq<(Seq<u8>, nat)> {
    let slot = name_slot(count_keys(counts), k);
    if slot.0 {
        counts.update(slot.1, (counts[slot.1].0, tick(counts[slot.1].1)))
    } else {
        counts
    }
}

/// The clusters of each cluster set among the first `k` clusters of a word.
#[verifier::opaque]
pub open spec fn run_counts(
    inventory: Inventory,
    cluster_sets: Seq<&'static str>,
    word: Seq<Seq<u8>>,
    k: int,
) -> Seq<(Seq<u8>, nat)>
    decreases k,
{
    if k <= 0 {
        zero_counts(cluster_sets)
    } else {
        let cs = word_sets(inventory, cluster_sets, word);
        bump_count(run_counts(inventory, cluster_sets, word, k - 1), cs[runs(cs)[k - 1].0])
    }
}

/// The analysis after a word is added: its clusters, then how many clusters of each cluster set
/// it has.
pub open spec fn record_word(
    r: Seq<(Seq<u8>, SetInfoView)>,
    inventory: Inventory,
    cluster_sets: Seq<&'static str>,
    structure_sets: Seq<&'static str>,
    word: Seq<Seq<u8>>,
) -> Seq<(Seq<u8>, SetInfoView)> {
    let n = runs(word_sets(inventory, cluster_sets, word)).len() as int;
    record_counts(
        record_runs(r, inventory, cluster_sets, structure_sets, word, n),
        run_counts(inventory, cluster_sets, word, n),
    )
}

proof fn lemma_runs_basics(values: Seq<Seq<u8>>)
    ensures
        values.len() == 0 <==> runs(values).len() == 0,
        runs(values).len() <= values.len(),
        values.len() > 0 ==> runs(values).last().1 == values.len(),
        values.len() > 0 ==> 0 <= runs(values).last().0 < values.len(),
        values.len() > 0 ==> forall|q: int|
            runs(values).last().0 <= q < values.len() ==> #[trigger] values[q] == values[runs(values).last().0],
        values.len() > 0 && runs(values).last().0 > 0 ==> values[runs(values).last().0 - 1]
            != values[runs(values).last().0],
    decreases values.len(),
{
    if values.len() > 0 {
        let d = values.drop_last();
        lemma_runs_basics(d);
        let n = values.len() - 1;
        let start = runs(values).last().0;
        if n > 0 && values[n - 1] == values[n] {
            assert(start == runs(d).last().0);
            assert forall|q: int| start <= q < values.len() implies #[trigger] values[q] == values[start] by {
                if q < n {
                    assert(d[q] == d[start]);
                } else {
                    assert(d[n - 1] == d[start]);
                }
            }
        }
    }
}

/// The runs of a prefix one longer than another keep all but the last run of the shorter.
proof fn lemma_runs_step(values: Seq<Seq<u8>>, i: int)
    requires
        0 < i < values.len(),
    ensures
        ({
            let a = runs(values.take(i));
            let b = runs(values.take(i + 1));
            &&& values[i - 1] == values[i] ==> b == a.update(a.len() - 1, (a.last().0, i + 1))
            &&& values[i - 1] != values[i] ==> b == a.push((i, i + 1))
        }),
{
    assert(values.take(i + 1).drop_last() =~= values.take(i));
}

/// The runs of a longer prefix agree with those of a shorter one on all runs but the last.
proof fn lemma_runs_prefix(values: Seq<Seq<u8>>, i: int, j: int)
    requires
        0 < i <= j <= values.len(),
    ensures
        ({
            let a = runs(values.take(i));
            let b = runs(values.take(j));
            &&& a.len() <= b.len()
            &&& forall|q: int| 0 <= q < a.len() - 1 ==> b[q] == a[q]
            &&& b[a.len() - 1].0 == a.last().0
        }),
    decreases j - i,
{
    lemma_runs_basics(values.take(i));
    if i < j {
        lemma_runs_prefix(values, i, j - 1);
        lemma_runs_basics(values.take(j - 1));
        lemma_runs_step(values, j - 1);
        assert(values.take(j - 1).len() == j - 1);
    }
}

proof fn lemma_runs_full(values: Seq<Seq<u8>>)
    ensures
        values.take(values.len() as int) == values,
{
    assert(values.take(values.len() as int) =~= values);
}


/// Whether looking the phoneme named `p` up in `sets` failed with the error `e`.
pub open spec fn lookup_failed(e: ElbieError, inventory: Inventory, p: Seq<u8>, sets: Seq<&'static str>) -> bool {
    !(first_set(inventory, p, sets) is Found) && search_error(e, p, sets, first_set(inventory, p, sets))
}

fn counts_zero(sets: &Vec<&'static str>) -> (r: Vec<(&'static str, usize)>)
    ensures
        name_counts(r@) == zero_counts(sets@),
{
    let mut counts: Vec<(&'static str, usize)> = Vec::new();
    let mut i: usize = 0;
    assert(name_counts(counts@) =~= zero_counts(sets@.take(0)));
    while i < sets.len()
        invariant
            i <= sets@.len(),
            name_counts(counts@) == zero_counts(sets@.take(i as int)),
        decreases sets@.len() - i,
    {
        let ghost before = name_counts(counts@);
        assert(key_list(counts@) =~= count_keys(before));
        let (found, at) = locate(&counts, sets[i]);
        if !found {
            counts.insert(at, (sets[i], 0));
            assert(name_counts(counts@) =~= before.insert(at as int, (sets@[i as int].spec_bytes(), 0nat)));
        }
        proof {
            assert(sets@.take(i + 1).drop_last() =~= sets@.take(i as int));
            assert(sets@.take(i + 1).last() == sets@[i as int]);
        }
        i = i + 1;
    }
    proof {
        assert(sets@.take(i as int) =~= sets@);
    }
    counts
}

fn bump_in(counts: &mut Vec<(&'static str, usize)>, k: &'static str)
    ensures
        name_counts(final(counts)@) == bump_count(name_counts(old(counts)@), k.spec_bytes()),
{
    let ghost before = name_counts(counts@);
    assert(key_list(counts@) =~= count_keys(before));
    let (found, i) = locate(counts, k);
    if found {
        let entry = counts[i];
        counts.set(i, (entry.0, tick_count(entry.1)));
        assert(name_counts(counts@) =~= before.update(i as int, (before[i as int].0, tick(before[i as int].1))));
    }
}

fn copy_range(phonemes: &Vec<Phoneme>, from: usize, to: usize) -> (r: Vec<Phoneme>)
    requires
        from <= to <= phonemes@.len(),
    ensures
        r@ == phonemes@.subrange(from as int, to as int),
{
    let mut r: Vec<Phoneme> = Vec::new();
    let mut i: usize = from;
    while i < to
        invariant
            from <= i <= to <= phonemes@.len(),
            r@ == phonemes@.subrange(from as int, i as int),
        decreases to - i,
    {
        r.push(phonemes[i]);
        assert(phonemes@.subrange(from as int, i + 1) =~= phonemes@.subrange(from as int, i as int).push(
            phonemes@[i as int],
        ));
        i = i + 1;
    }
    r
}

impl AnalysisConfig {
    fn structure_key(&self, inventory: &Inventory, phonemes: &Vec<Phoneme>, from: usize, to: usize) -> (r: Result<
        Vec<&'static str>,
        ElbieError,
    >)
        requires
            from <= to <= phonemes@.len(),
        ensures
            ({
                let w = views(phonemes@);
                &&& r matches Ok(key) ==> name_bytes(key@) == word_sets(*inventory, self.structure_sets@, w).subrange(
                    from as int,
                    to as int,
                ) && forall|q: int|
                    from <= q < to ==> #[trigger] first_set(*inventory, w[q], self.structure_sets@) is Found
                &&& r matches Err(e) ==> exists|q: int|
                    from <= q < to && #[trigger] lookup_failed(e, *inventory, w[q], self.structure_sets@)
            }),
    {
        let ghost w = views(phonemes@);
        let ghost ss = word_sets(*inventory, self.structure_sets@, w);
        let mut key: Vec<&'static str> = Vec::new();
        let mut i: usize = from;
        while i < to
            invariant
                from <= i <= to <= phonemes@.len(),
                w == views(phonemes@),
                ss == word_sets(*inventory, self.structure_sets@, w),
                name_bytes(key@) == ss.subrange(from as int, i as int),
                forall|q: int| from <= q < i ==> #[trigger] first_set(*inventory, w[q], self.structure_sets@) is Found,
            decreases to - i,
        {
            assert(w[i as int] == phonemes@[i as int]@);
            let found = find_set_for(inventory, &phonemes[i], &self.structure_sets);
            match found {
                Ok(set) => {
                    assert(first_set(*inventory, w[i as int], self.structure_sets@) == SetSearch::Found(set));
                    assert(ss[i as int] == set.spec_bytes());
                    let ghost before = key@;
                    key.push(set);
                    assert(name_bytes(key@) =~= name_bytes(before).push(set.spec_bytes()));
                    assert(ss.subrange(from as int, i + 1) =~= ss.subrange(from as int, i as int).push(ss[i as int]));
                },
                Err(e) => {
                    assert(lookup_failed(e, *inventory, w[i as int], self.structure_sets@));
                    return Err(e);
                },
            }
            i = i + 1;
        }
        Ok(key)
    }
}


proof fn lemma_record_step(
    r: Seq<(Seq<u8>, SetInfoView)>,
    inventory: Inventory,
    cluster_sets: Seq<&'static str>,
    structure_sets: Seq<&'static str>,
    word: Seq<Seq<u8>>,
    k: int,
)
    requires
        0 <= k,
    ensures
        ({
            let cs = word_sets(inventory, cluster_sets, word);
            let ss = word_sets(inventory, structure_sets, word);
            let rs = runs(cs);
            let run = rs[k];
            let last = k + 1 == rs.len();
            &&& record_runs(r, inventory, cluster_sets, structure_sets, word, 0) == r
            &&& record_runs(r, inventory, cluster_sets, structure_sets, word, k + 1) == record_cluster(
                record_runs(r, inventory, cluster_sets, structure_sets, word, k),
                cs[run.0],
                k == 0,
                last,
                ss.subrange(run.0, run.1),
                word.subrange(run.0, run.1),
                if last {
                    None
                } else {
                    Some((cs[run.1], ss[run.1]))
                },
            )
            &&& run_counts(inventory, cluster_sets, word, 0) == zero_counts(cluster_sets)
            &&& run_counts(inventory, cluster_sets, word, k + 1) == bump_count(
                run_counts(inventory, cluster_sets, word, k),
                cs[run.0],
            )
        }),
{
    reveal(record_runs);
    reveal(run_counts);
}

impl AnalysisConfig {
    #[verifier::spinoff_prover]
    #[verifier::rlimit(80)]
    fn analyze_word(&self, inventory: &Inventory, phonemes: &Vec<Phoneme>, results: &mut AnalysisResults) -> (r: Result<
        (),
        ElbieError,
    >)
        ensures
            ({
                let w = views(phonemes@);
                &&& r is Ok <==> covered(*inventory, self.cluster_sets@, w) && covered(
                    *inventory,
                    self.structure_sets@,
                    w,
                )
                &&& r is Ok ==> final(results)@ == record_word(
                    old(results)@,
                    *inventory,
                    self.cluster_sets@,
                    self.structure_sets@,
                    w,
                )
                &&& r matches Err(e) ==> exists|q: int|
                    #![trigger w[q]]
                    0 <= q < w.len() && (lookup_failed(e, *inventory, w[q], self.cluster_sets@) || lookup_failed(
                        e,
                        *inventory,
                        w[q],
                        self.structure_sets@,
                    ))
            }),
    {
        let ghost w = views(phonemes@);
        let ghost inv = *inventory;
        let ghost cl = self.cluster_sets@;
        let ghost st = self.structure_sets@;
        let ghost cs = word_sets(inv, cl, w);
        let ghost ss = word_sets(inv, st, w);
        let ghost rs = runs(cs);
        let ghost r0 = results@;
        let n = phonemes.len();
        let mut counts = counts_zero(&self.cluster_sets);
        if n == 0 {
            proof {
                assert(cs.len() == 0);
                assert(rs.len() == 0);
                lemma_record_step(r0, inv, cl, st, w, 0);
            }
            results.add_counts(&counts);
            return Ok(());
        }
        proof {
            lemma_runs_full(cs);
            assert(w[0] == phonemes@[0]@);
        }
        let first = find_set_for(inventory, &phonemes[0], &self.cluster_sets);
        let mut set = match first {
            Ok(s) => s,
            Err(e) => {
                assert(lookup_failed(e, inv, w[0], cl));
                return Err(e);
            },
        };
        proof {
            assert(first_set(inv, w[0], cl) == SetSearch::Found(set));
            assert(cs.take(1).drop_last().len() == 0);
            let t = cs.take(1);
            assert(t.drop_last() =~= Seq::<Seq<u8>>::empty());
            assert(runs(t.drop_last()).len() == 0);
            assert(runs(t) =~= seq![(0int, 1int)]);
        }
        proof {
            lemma_record_step(r0, inv, cl, st, w, 0);
        }
        let mut start: usize = 0;
        let mut initial = true;
        let ghost mut k: int = 0;
        let mut i: usize = 1;
        while i < n
            invariant
                1 <= i <= n == phonemes@.len() == w.len() == cs.len() == ss.len(),
                0 <= start < i,
                w == views(phonemes@),
                inv == *inventory,
                cl == self.cluster_sets@,
                st == self.structure_sets@,
                cs == word_sets(inv, cl, w),
                ss == word_sets(inv, st, w),
                rs == runs(cs),
                forall|q: int| 0 <= q < i ==> #[trigger] first_set(inv, w[q], cl) is Found,
                forall|q: int| 0 <= q < start ==> #[trigger] first_set(inv, w[q], st) is Found,
                set.spec_bytes() == cs[start as int],
                runs(cs.take(i as int)).last() == (start as int, i as int),
                k == runs(cs.take(i as int)).len() - 1,
                0 <= k,
                initial == (k == 0),
                results@ == record_runs(r0, inv, cl, st, w, k),
                name_counts(counts@) == run_counts(inv, cl, w, k),
            decreases n - i,
        {
            assert(w[i as int] == phonemes@[i as int]@);
            let found = find_set_for(inventory, &phonemes[i], &self.cluster_sets);
            let next_set = match found {
                Ok(s) => s,
                Err(e) => {
                    assert(lookup_failed(e, inv, w[i as int], cl));
                    return Err(e);
                },
            };
            proof {
                assert(first_set(inv, w[i as int], cl) == SetSearch::Found(next_set));
                assert(cs[i as int] == next_set.spec_bytes());
                lemma_runs_basics(cs.take(i as int));
                assert(cs.take(i as int)[i - 1] == cs[i - 1]);
                assert(cs.take(i as int)[start as int] == cs[start as int]);
                lemma_runs_step(cs, i as int);
            }
            if !same_name(set, next_set) {
                bump_in(&mut counts, set);
                let key = match self.structure_key(inventory, phonemes, start, i) {
                    Ok(key) => key,
                    Err(e) => {
                        return Err(e);
                    },
                };
                let next_found = find_set_for(inventory, &phonemes[i], &self.structure_sets);
                let next_structure = match next_found {
                    Ok(s) => s,
                    Err(e) => {
                        assert(lookup_failed(e, inv, w[i as int], st));
                        return Err(e);
                    },
                };
                let cluster = copy_range(phonemes, start, i);
                proof {
                    assert(first_set(inv, w[i as int], st) == SetSearch::Found(next_structure));
                    assert(ss[i as int] == next_structure.spec_bytes());
                    assert(cs.take(n as int) =~= cs);
                    lemma_runs_prefix(cs, i + 1, n as int);
                    let a = runs(cs.take(i + 1));
                    assert(a == runs(cs.take(i as int)).push((i as int, i + 1)));
                    assert(rs[k] == a[k]);
                    assert(rs[k] == (start as int, i as int));
                    assert(rs.len() > k + 1);
                    assert(views(cluster@) =~= w.subrange(start as int, i as int));
                }
                results.add_cluster(set, &key, &cluster, initial, false, Some((next_set, next_structure)));
                proof {
                    lemma_record_step(r0, inv, cl, st, w, k);
                    assert(results@ == record_runs(r0, inv, cl, st, w, k + 1));
                    assert(name_counts(counts@) == run_counts(inv, cl, w, k + 1));
                    k = k + 1;
                }
                start = i;
                set = next_set;
                initial = false;
            }
            i = i + 1;
        }
        bump_in(&mut counts, set);
        let key = match self.structure_key(inventory, phonemes, start, n) {
            Ok(key) => key,
            Err(e) => {
                return Err(e);
            },
        };
        let cluster = copy_range(phonemes, start, n);
        proof {
            assert(cs.take(n as int) =~= cs);
            assert(rs == runs(cs.take(i as int)));
            assert(rs.last() == (start as int, n as int));
            assert(rs[k] == (start as int, n as int));
            assert(views(cluster@) =~= w.subrange(start as int, n as int));
        }
        results.add_cluster(set, &key, &cluster, initial, true, None);
        proof {
            lemma_record_step(r0, inv, cl, st, w, k);
            assert(results@ == record_runs(r0, inv, cl, st, w, k + 1));
            assert(name_counts(counts@) == run_counts(inv, cl, w, k + 1));
            assert(k + 1 == rs.len());
            assert forall|q: int| 0 <= q < n implies #[trigger] first_set(inv, w[q], st) is Found by {
                if q >= start {
                    assert(first_set(inv, w[q], st) is Found);
                }
            }
        }
        results.add_counts(&counts);
        Ok(())
    }
}


/// The phoneme names a word's text reads as, as `read_word` reads it, or where reading stops.
pub open spec fn word_reading(inventory: Inventory, text: Seq<char>) -> Result<Seq<Seq<u8>>, int> {
    read_names(inventory.phoneme_names(), encode_utf8(reading_source(inventory, text)), 0)
}

/// Whether a word's text reads, and each of its phonemes is in a cluster set and a structure
/// set.
pub open spec fn word_ok(
    inventory: Inventory,
    cluster_sets: Seq<&'static str>,
    structure_sets: Seq<&'static str>,
    text: Seq<char>,
) -> bool {
    word_reading(inventory, text) matches Ok(w) && covered(inventory, cluster_sets, w) && covered(
        inventory,
        structure_sets,
        w,
    )
}

/// Whether `e` is an error of analysing a word's text: the reading error, with the text left
/// unread, when the text does not read, else the error of a lookup of one of its phonemes that found no set.
pub open spec fn word_error(
    e: ElbieError,
    inventory: Inventory,
    cluster_sets: Seq<&'static str>,
    structure_sets: Seq<&'static str>,
    text: Seq<char>,
) -> bool {
    match word_reading(inventory, text) {
        Err(at) => e matches ElbieError::UnknownPhonemeWhileReading(whole, rest) && whole@ == text
            && encode_utf8(rest@) == encode_utf8(reading_source(inventory, text)).subrange(
            at,
            encode_utf8(reading_source(inventory, text)).len() as int,
        ),
        Ok(w) => exists|q: int|
            #![trigger w[q]]
            0 <= q < w.len() && (lookup_failed(e, inventory, w[q], cluster_sets) || lookup_failed(
                e,
                inventory,
                w[q],
                structure_sets,
            )),
    }
}

/// The words of the entries of a word table.
pub open spec fn word_texts(entries: Seq<WordTableEntry>) -> Seq<Seq<char>> {
    entries.map_values(|e: WordTableEntry| e.word_view())
}

/// The analysis of some words, as each is added in turn by `record_word`.
pub open spec fn analysis_of(
    inventory: Inventory,
    cluster_sets: Seq<&'static str>,
    structure_sets: Seq<&'static str>,
    texts: Seq<Seq<char>>,
) -> Seq<(Seq<u8>, SetInfoView)>
    decreases texts.len(),
{
    if texts.len() == 0 {
        Seq::empty()
    } else {
        record_word(
            analysis_of(inventory, cluster_sets, structure_sets, texts.drop_last()),
            inventory,
            cluster_sets,
            structure_sets,
            word_reading(inventory, texts.last())->Ok_0,
        )
    }
}

impl AnalysisConfig {
    /// Analyses the words of a table: each word is read, split into clusters by cluster set, and
    /// its clusters and their counts are added, as `analysis_of` says. A word that does not
    /// read, or a phoneme that a lookup finds in no set, is an error, that of the first word
    /// that has one.
    pub fn analyze(&self, inventory: &Inventory, words: &WordTable) -> (r: Result<AnalysisResults, ElbieError>)
        ensures
            ({
                let texts = word_texts(words.entry_list());
                &&& r is Ok <==> forall|k: int|
                    0 <= k < texts.len() ==> word_ok(
                        *inventory,
                        self.cluster_sets@,
                        self.structure_sets@,
                        #[trigger] texts[k],
                    )
                &&& r matches Ok(results) ==> results@ == analysis_of(
                    *inventory,
                    self.cluster_sets@,
                    self.structure_sets@,
                    texts,
                )
                &&& r matches Err(e) ==> exists|k: int|
                    0 <= k < texts.len() && (forall|j: int|
                        0 <= j < k ==> word_ok(*inventory, self.cluster_sets@, self.structure_sets@, #[trigger] texts[j]))
                        && !word_ok(*inventory, self.cluster_sets@, self.structure_sets@, #[trigger] texts[k])
                        && word_error(e, *inventory, self.cluster_sets@, self.structure_sets@, texts[k])
            }),
    {
        let ghost texts = word_texts(words.entry_list());
        let ghost inv = *inventory;
        let ghost cl = self.cluster_sets@;
        let ghost st = self.structure_sets@;
        let entries = words.entries();
        let mut results = AnalysisResults::new();
        let mut k: usize = 0;
        while k < entries.len()
            invariant
                k <= entries@.len(),
                entries@ == words.entry_list(),
                texts == word_texts(words.entry_list()),
                inv == *inventory,
                cl == self.cluster_sets@,
                st == self.structure_sets@,
                forall|j: int| 0 <= j < k ==> word_ok(inv, cl, st, #[trigger] texts[j]),
                results@ == analysis_of(inv, cl, st, texts.take(k as int)),
            decreases entries@.len() - k,
        {
            let text = entries[k].word();
            assert(text@ == texts[k as int]);
            let word = match read_word(inventory, text.as_str()) {
                Ok(word) => word,
                Err(e) => {
                    assert(!word_ok(inv, cl, st, texts[k as int]));
                    assert(word_error(e, inv, cl, st, texts[k as int]));
                    return Err(e);
                },
            };
            let phonemes = word.phonemes();
            let ghost w = views(phonemes@);
            assert(word_reading(inv, texts[k as int]) == Ok::<Seq<Seq<u8>>, int>(w));
            match self.analyze_word(inventory, phonemes, &mut results) {
                Ok(()) => {},
                Err(e) => {
                    assert(!word_ok(inv, cl, st, texts[k as int]));
                    assert(word_error(e, inv, cl, st, texts[k as int]));
                    return Err(e);
                },
            }
            proof {
                assert(texts.take(k + 1).drop_last() =~= texts.take(k as int));
                assert(texts.take(k + 1).last() == texts[k as int]);
            }
            k = k + 1;
        }
        proof {
            assert(texts.take(k as int) =~= texts);
        }
        Ok(results)
    }
}

} // verus!
