//! The state of the story shuffler: the manuscript and its sections, the
//! constraints on them, and the latest reordering.

use crate::constraints::{message_view, rules_of, Constraints, Rule};
use crate::digraph::{graph_successors, has_edge, no_parallel_edges};
use crate::extension::is_linear_extension;
use crate::ordering::random_order;
use crate::paradox::{
    acyclic, cycles_through, find_cycle, is_cycle, lemma_paths_view, paradox_message,
    paradox_text,
};
use crate::precedence::{
    check_references, compute_graph, is_precedence_graph, is_section_graph,
    lemma_precedence_edges, precedence_successors, references_in_range,
};
use crate::splitting::{
    all_trimmed, error_text, lemma_texts_view, plain_split, regex_split, split_at_delimiter,
    split_at_matches, trim_all,
};
use petgraph::graph::DiGraph;
use vstd::prelude::*;
use vstd::string::*;

verus! {

/// The complete state of the application.
#[derive(Clone, Debug)]
pub struct StoryShufflerApp {
    /// The manuscript as it was pasted in.
    pub original_manuscript: String,
    /// Whether the section delimiter is to be read as a regular expression.
    pub delimiter_pattern_is_regex: bool,
    /// The section delimiter.
    pub delimiter_pattern: String,
    /// What to present where the delimiter is no valid regular expression.
    pub delimiter_regex_error: Option<String>,
    /// The sections of the manuscript, in the order of the manuscript, with
    /// the white space trimmed from their ends.
    pub original_sections: Vec<String>,
    /// The constraints of each section, in the order of the sections.
    pub constraints: Vec<Constraints>,
    /// The latest reordering, as indices into the sections that were there
    /// when it was made. A later change of the manuscript leaves it alone.
    pub shuffled_section_indices: Option<Vec<usize>>,
    /// The texts of the latest reordering, in step with the indices.
    pub shuffled_sections: Option<Vec<String>>,
}

/// The message that section `v` is to carry under `rules`: the report of the
/// cycles through its node, or none where no cycle passes through it.
pub open spec fn paradox_at(rules: Seq<Rule>, v: usize) -> Option<Seq<char>> {
    let cycles = cycles_through(precedence_successors(rules), v);
    if cycles.len() == 0 {
        None
    } else {
        Some(paradox_text(cycles))
    }
}

/// Whether `after` is `before` with the paradoxes marked: each section carries
/// the message that its constraints call for, and nothing else has changed.
pub open spec fn marked(before: Seq<Constraints>, after: Seq<Constraints>) -> bool {
    &&& after.len() == before.len()
    &&& forall|i: int|
        0 <= i < before.len() ==> {
            &&& (#[trigger] after[i]).fixed == before[i].fixed
            &&& after[i].before == before[i].before
            &&& after[i].text_buffer == before[i].text_buffer
            &&& after[i].text_buffer_is_valid == before[i].text_buffer_is_valid
            &&& message_view(after[i].paradox_error) == paradox_at(rules_of(before), i as usize)
        }
}

/// Whether all the text that was typed in for the constraints is well-formed.
pub open spec fn all_text_valid(constraints: Seq<Constraints>) -> bool {
    forall|i: int| 0 <= i < constraints.len() ==> (#[trigger] constraints[i]).text_buffer_is_valid
}

/// Whether none of `constraints` says anything yet.
pub open spec fn all_unconstrained(constraints: Seq<Constraints>) -> bool {
    forall|i: int| 0 <= i < constraints.len() ==> (#[trigger] constraints[i]).is_unconstrained()
}

/// The delimiter that is put between the sections of a manuscript that is
/// put together again: a delimiter of plain text as it is, and three
/// asterisks in place of a regular expression, with an empty line before and
/// after.
pub open spec fn export_delimiter_text(is_regex: bool, pattern: Seq<char>) -> Seq<char> {
    if is_regex {
        "\n\n* * *\n\n"@
    } else {
        "\n\n"@ + pattern + "\n\n"@
    }
}

/// `texts` one after the other, with `delimiter` between them.
pub open spec fn joined(texts: Seq<Seq<char>>, delimiter: Seq<char>) -> Seq<char>
    decreases texts.len(),
{
    if texts.len() == 0 {
        Seq::empty()
    } else if texts.len() == 1 {
        texts[0]
    } else {
        joined(texts.drop_last(), delimiter) + delimiter + texts.last()
    }
}

/// The text by which a section is shown in a list: its first 79 characters,
/// and an ellipsis.
pub open spec fn preview_text(section: Seq<char>) -> Seq<char> {
    if section.len() <= 79 {
        section.push('\u{2026}')
    } else {
        section.take(79).push('\u{2026}')
    }
}

/// Writes the text by which `section` is shown in a list.
pub fn preview(section: &str) -> (shown: String)
    ensures
        shown@ == preview_text(section@),
{
    let length = section.unicode_len();
    let kept = if length <= 79 {
        length
    } else {
        79
    };
    let mut shown = String::from_str(section.substring_char(0, kept));
    shown.append("\u{2026}");
    proof {
        reveal_strlit("\u{2026}");
        assert(section@.subrange(0, kept as int) =~= section@.take(kept as int));
        assert(section@.take(section@.len() as int) =~= section@);
        assert(shown@ =~= preview_text(section@));
    }
    shown
}

impl StoryShufflerApp {
    /// Creates the state of the application: the state that the last run
    /// kept, where there is one and it hangs together, and a fresh state
    /// otherwise.
    pub fn new(kept: Option<StoryShufflerApp>) -> (app: Self)
        ensures
            app.well_formed(),
            match kept {
                Some(state) => if state.well_formed() {
                    app == state
                } else {
                    app.is_fresh()
                },
                None => app.is_fresh(),
            },
    {
        match kept {
            Some(state) => {
                if state.is_well_formed() {
                    state
                } else {
                    StoryShufflerApp::default()
                }
            },
            None => StoryShufflerApp::default(),
        }
    }

    /// Whether the state hangs together: there are constraints for each
    /// section, and the latest reordering, where there is one, has a text for
    /// each of its indices.
    pub open spec fn well_formed(&self) -> bool {
        &&& self.constraints@.len() == self.original_sections@.len()
        &&& match (self.shuffled_section_indices, self.shuffled_sections) {
            (Some(indices), Some(texts)) => indices@.len() == texts@.len(),
            (None, None) => true,
            _ => false,
        }
    }

    /// Whether the state hangs together.
    pub fn is_well_formed(&self) -> (well_formed: bool)
        ensures
            well_formed == self.well_formed(),
    {
        self.constraints.len() == self.original_sections.len() && match (
            &self.shuffled_section_indices,
            &self.shuffled_sections,
        ) {
            (Some(indices), Some(texts)) => indices.len() == texts.len(),
            (None, None) => true,
            _ => false,
        }
    }

    /// Whether this is the state in which the application starts: nothing
    /// has been pasted in, and the delimiter is three asterisks, as plain
    /// text.
    pub open spec fn is_fresh(&self) -> bool {
        &&& self.original_manuscript@.len() == 0
        &&& !self.delimiter_pattern_is_regex
        &&& self.delimiter_pattern@ == "* * *"@
        &&& self.delimiter_regex_error is None
        &&& self.original_sections@.len() == 0
        &&& self.constraints@.len() == 0
        &&& self.shuffled_section_indices is None
        &&& self.shuffled_sections is None
    }

    /// Takes what splitting the manuscript came to. Pieces become the
    /// sections, each trimmed of the white space at its ends; a failure
    /// leaves no sections, and its message is kept for the writer. Either way
    /// the constraints start afresh, one for each section and none of them
    /// saying anything. The latest reordering stays.
    pub fn take_sections(&mut self, outcome: Result<Vec<String>, String>)
        ensures
            match outcome {
                Ok(pieces) => {
                    &&& final(self).delimiter_regex_error is None
                    &&& final(self).original_sections.deep_view() == all_trimmed(
                        pieces.deep_view(),
                    )
                },
                Err(message) => {
                    &&& final(self).delimiter_regex_error == Some(message)
                    &&& final(self).original_sections@.len() == 0
                },
            },
            final(self).constraints@.len() == final(self).original_sections@.len(),
            all_unconstrained(final(self).constraints@),
            final(self).original_manuscript == old(self).original_manuscript,
            final(self).delimiter_pattern_is_regex == old(self).delimiter_pattern_is_regex,
            final(self).delimiter_pattern == old(self).delimiter_pattern,
            final(self).same_reordering(old(self)),
            old(self).well_formed() ==> final(self).well_formed(),
    {
        match outcome {
            Ok(pieces) => {
                self.delimiter_regex_error = None;
                self.original_sections = trim_all(&pieces);
            },
            Err(message) => {
                self.delimiter_regex_error = Some(message);
                self.original_sections = Vec::new();
            },
        }
        let mut fresh: Vec<Constraints> = Vec::new();
        let mut index: usize = 0;
        while index < self.original_sections.len()
            invariant
                index <= self.original_sections.len(),
                fresh@.len() == index,
                all_unconstrained(fresh@),
            decreases self.original_sections.len() - index,
        {
            fresh.push(Constraints::default());
            index += 1;
        }
        self.constraints = fresh;
    }

    /// Splits the manuscript into its sections anew, after a change of the
    /// manuscript or of the delimiter. A delimiter that is not empty and is
    /// to be read as a regular expression is compiled, and the manuscript is
    /// split at its matches; where it does not compile, the reason is kept as
    /// a message and there are no sections. Any other delimiter is plain
    /// text, at which the manuscript is split. The sections are trimmed, and
    /// the constraints start afresh. Whether a regular expression compiles,
    /// and what the message says where it does not, is for the `regex` crate
    /// to say.
    pub fn update_sections(&mut self)
        ensures
            final(self).constraints@.len() == final(self).original_sections@.len(),
            all_unconstrained(final(self).constraints@),
            final(self).original_manuscript == old(self).original_manuscript,
            final(self).delimiter_pattern_is_regex == old(self).delimiter_pattern_is_regex,
            final(self).delimiter_pattern == old(self).delimiter_pattern,
            final(self).same_reordering(old(self)),
            old(self).well_formed() ==> final(self).well_formed(),
            !(old(self).delimiter_pattern_is_regex && old(self).delimiter_pattern@.len() > 0)
                ==> {
                &&& final(self).delimiter_regex_error is None
                &&& final(self).original_sections.deep_view() == all_trimmed(
                    plain_split(old(self).original_manuscript@, old(self).delimiter_pattern@),
                )
            },
            old(self).delimiter_pattern_is_regex && old(self).delimiter_pattern@.len() > 0 ==> {
                if final(self).delimiter_regex_error is None {
                    final(self).original_sections.deep_view() == all_trimmed(
                        regex_split(old(self).delimiter_pattern@, old(self).original_manuscript@),
                    )
                } else {
                    final(self).original_sections@.len() == 0
                }
            },
    {
        let manuscript = self.original_manuscript.as_str();
        let delimiter = self.delimiter_pattern.as_str();
        let outcome = if self.delimiter_pattern_is_regex && !delimiter.is_empty() {
            match split_at_matches(delimiter, manuscript) {
                Ok(pieces) => Ok(pieces),
                Err(error) => Err(error_text(&error)),
            }
        } else {
            Ok(split_at_delimiter(manuscript, delimiter))
        };
        self.take_sections(outcome);
    }

    /// The delimiter that goes between the sections of the manuscript that
    /// is put together from the latest reordering.
    pub fn export_delimiter(&self) -> (delimiter: String)
        ensures
            delimiter@ == export_delimiter_text(
                self.delimiter_pattern_is_regex,
                self.delimiter_pattern@,
            ),
    {
        if self.delimiter_pattern_is_regex {
            String::from_str("\n\n* * *\n\n")
        } else {
            let mut delimiter = String::from_str("\n\n");
            delimiter.append(self.delimiter_pattern.as_str());
            delimiter.append("\n\n");
            delimiter
        }
    }

    /// Puts the latest reordering together as a manuscript: its texts, with
    /// the delimiter between them. Without a reordering there is nothing to
    /// put together.
    pub fn assemble(&self) -> (manuscript: Option<String>)
        ensures
            message_view(manuscript) == match self.shuffled_sections {
                Some(texts) => Some(
                    joined(
                        texts.deep_view(),
                        export_delimiter_text(
                            self.delimiter_pattern_is_regex,
                            self.delimiter_pattern@,
                        ),
                    ),
                ),
                None => None,
            },
    {
        match &self.shuffled_sections {
            None => None,
            Some(texts) => {
                let delimiter = self.export_delimiter();
                let mut manuscript = String::new();
                let ghost views = texts.deep_view();
                proof {
                    lemma_texts_view(*texts);
                }
                let mut index: usize = 0;
                while index < texts.len()
                    invariant
                        index <= texts.len(),
                        views == texts.deep_view(),
                        views.len() == texts@.len(),
                        forall|i: int|
                            0 <= i < texts@.len() ==> #[trigger] views[i] == texts@[i]@,
                        manuscript@ == joined(views.take(index as int), delimiter@),
                    decreases texts.len() - index,
                {
                    if index > 0 {
                        manuscript.append(delimiter.as_str());
                    }
                    manuscript.append(texts[index].as_str());
                    proof {
                        let longer = views.take(index + 1);
                        assert(longer.drop_last() =~= views.take(index as int));
                        assert(longer.last() == texts@[index as int]@);
                    }
                    index += 1;
                }
                assert(views.take(index as int) =~= views);
                Some(manuscript)
            },
        }
    }

    /// Whether a reordering may be asked for: there is more than one section,
    /// and no text of a constraint is malformed.
    pub open spec fn shuffle_allowed(&self) -> bool {
        self.original_sections@.len() > 1 && all_text_valid(self.constraints@)
    }

    /// Whether the constraints can be turned into a graph: there is one for
    /// each section, and each section number in them names a section.
    pub open spec fn constraints_fit(&self) -> bool {
        &&& self.constraints@.len() == self.original_sections@.len()
        &&& self.constraints@.len() < usize::MAX
        &&& references_in_range(rules_of(self.constraints@))
    }

    /// Whether everything but the constraints and the reordering is as in
    /// `other`.
    pub open spec fn same_manuscript(&self, other: &Self) -> bool {
        &&& self.original_manuscript == other.original_manuscript
        &&& self.delimiter_pattern_is_regex == other.delimiter_pattern_is_regex
        &&& self.delimiter_pattern == other.delimiter_pattern
        &&& self.delimiter_regex_error == other.delimiter_regex_error
        &&& self.original_sections == other.original_sections
    }

    /// Whether the latest reordering is as in `other`.
    pub open spec fn same_reordering(&self, other: &Self) -> bool {
        &&& self.shuffled_section_indices == other.shuffled_section_indices
        &&& self.shuffled_sections == other.shuffled_sections
    }

    /// Whether the latest reordering is `order`, with the texts of the
    /// sections in that order.
    pub open spec fn reordered_as(&self, order: Seq<usize>) -> bool {
        &&& self.shuffled_section_indices matches Some(indices)
        &&& indices@ == order
        &&& self.shuffled_sections matches Some(texts)
        &&& texts@.len() == order.len()
        &&& forall|k: int|
            0 <= k < order.len() ==> order[k] < self.original_sections@.len() && (
            #[trigger] texts@[k])@ == self.original_sections@[order[k] as int]@
    }

    /// Whether the sections can be shuffled as things stand.
    pub fn can_shuffle(&self) -> (allowed: bool)
        ensures
            allowed == self.shuffle_allowed(),
    {
        if self.original_sections.len() <= 1 {
            return false;
        }
        let mut index: usize = 0;
        while index < self.constraints.len()
            invariant
                index <= self.constraints.len(),
                forall|i: int|
                    0 <= i < index ==> (#[trigger] self.constraints@[i]).text_buffer_is_valid,
            decreases self.constraints.len() - index,
        {
            if !self.constraints[index].text_buffer_is_valid {
                return false;
            }
            index += 1;
        }
        true
    }

    /// Marks the paradoxes in the constraints. The precedence graph is built,
    /// and the cycles through each of its nodes are looked for. A section on
    /// a cycle gets the report of its cycles as its message, a section on none
    /// has its message cleared. Every section is gone through, whatever was
    /// found for the others. The graph is handed out where there was no cycle
    /// at all, and only then.
    pub fn mark_cycles(&mut self) -> (graph: Option<DiGraph<usize, (), usize>>)
        requires
            old(self).constraints@.len() < usize::MAX,
            references_in_range(rules_of(old(self).constraints@)),
        ensures
            marked(old(self).constraints@, final(self).constraints@),
            forall|v: usize|
                v < old(self).constraints@.len() ==> (#[trigger] paradox_at(
                    rules_of(old(self).constraints@),
                    v,
                ) is Some <==> exists|path: Seq<usize>|
                    is_cycle(precedence_successors(rules_of(old(self).constraints@)), v, path)),
            graph is Some <==> acyclic(precedence_successors(rules_of(old(self).constraints@))),
            graph is Some <==> forall|i: int|
                0 <= i < final(self).constraints@.len() ==> (
                #[trigger] final(self).constraints@[i]).paradox_error is None,
            graph matches Some(g) ==> is_section_graph(g) && is_precedence_graph(
                g,
                rules_of(old(self).constraints@),
            ),
            final(self).same_manuscript(old(self)),
            final(self).same_reordering(old(self)),
            old(self).well_formed() ==> final(self).well_formed(),
    {
        let graph = compute_graph(self.constraints.as_slice());
        let ghost rules = rules_of(self.constraints@);
        let ghost successors = precedence_successors(rules);
        let count = self.constraints.len();
        let mut cycle_count: usize = 0;
        let mut index: usize = 0;
        while index < count
            invariant
                index <= count == old(self).constraints@.len() < usize::MAX,
                rules == rules_of(old(self).constraints@),
                successors == precedence_successors(rules),
                is_precedence_graph(graph, rules),
                is_section_graph(graph),
                graph_successors(graph).len() == count,
                no_parallel_edges(graph_successors(graph)),
                self.constraints@.len() == count,
                self.same_manuscript(old(self)),
                self.same_reordering(old(self)),
                cycle_count <= index,
                cycle_count == 0 <==> forall|v: usize|
                    v < index ==> #[trigger] paradox_at(rules, v) is None,
                forall|v: usize|
                    v < index ==> (#[trigger] paradox_at(rules, v) is Some <==> exists|
                        path: Seq<usize>,
                    |
                        is_cycle(successors, v, path)),
                forall|i: int|
                    0 <= i < count ==> {
                        let now = #[trigger] self.constraints@[i];
                        let then = old(self).constraints@[i];
                        &&& now.fixed == then.fixed
                        &&& now.before == then.before
                        &&& now.text_buffer == then.text_buffer
                        &&& now.text_buffer_is_valid == then.text_buffer_is_valid
                    },
                forall|i: int|
                    0 <= i < index ==> message_view(
                        (#[trigger] self.constraints@[i]).paradox_error,
                    ) == paradox_at(rules, i as usize),
            decreases count - index,
        {
            let cycles = find_cycle(&graph, index);
            proof {
                lemma_paths_view(cycles);
                if cycles.len() > 0 {
                    assert(cycles.deep_view().contains(cycles.deep_view()[0]));
                }
                if exists|path: Seq<usize>| is_cycle(successors, index, path) {
                    let path = choose|path: Seq<usize>| is_cycle(successors, index, path);
                    assert(cycles.deep_view().contains(path));
                }
            }
            if cycles.len() != 0 {
                let error = paradox_message(&cycles);
                self.constraints[index].paradox_error = Some(error);
                cycle_count += 1;
            } else {
                self.constraints[index].paradox_error = None;
            }
            index += 1;
        }
        proof {
            if cycle_count == 0 {
                assert forall|v: usize, path: Seq<usize>| !is_cycle(successors, v, path) by {
                    if is_cycle(successors, v, path) {
                        assert(has_edge(successors, path[0], path[1]));
                        assert(paradox_at(rules, v) is None);
                    }
                }
                assert forall|i: int| 0 <= i < self.constraints@.len() implies (
                #[trigger] self.constraints@[i]).paradox_error is None by {
                    assert(paradox_at(rules, i as usize) is None);
                }
            } else {
                let v = choose|v: usize| v < index && !(#[trigger] paradox_at(rules, v) is None);
                assert(paradox_at(rules, v) is Some);
                assert(self.constraints@[v as int].paradox_error is Some);
            }
        }
        if cycle_count == 0 {
            Some(graph)
        } else {
            None
        }
    }

    /// Keeps `indices` as the latest reordering, and with them the texts of
    /// the sections in that order. The two are made first and put in place
    /// together.
    pub fn keep_order(&mut self, indices: Vec<usize>)
        requires
            forall|k: int|
                0 <= k < indices@.len() ==> #[trigger] indices@[k]
                    < old(self).original_sections@.len(),
        ensures
            final(self).reordered_as(indices@),
            final(self).same_manuscript(old(self)),
            final(self).constraints == old(self).constraints,
            old(self).well_formed() ==> final(self).well_formed(),
    {
        let mut shuffled: Vec<String> = Vec::new();
        let mut place: usize = 0;
        while place < indices.len()
            invariant
                place <= indices.len(),
                forall|k: int|
                    0 <= k < indices@.len() ==> #[trigger] indices@[k]
                        < self.original_sections@.len(),
                shuffled@.len() == place,
                forall|k: int|
                    0 <= k < place ==> (#[trigger] shuffled@[k])@
                        == self.original_sections@[indices@[k] as int]@,
            decreases indices.len() - place,
        {
            let index = indices[place];
            shuffled.push(self.original_sections[index].clone());
            place += 1;
        }
        self.shuffled_section_indices = Some(indices);
        self.shuffled_sections = Some(shuffled);
    }

    /// Shuffles the sections as the graph allows, and keeps the outcome as
    /// the latest reordering.
    pub fn shuffle(&mut self, graph: DiGraph<usize, (), usize>)
        requires
            is_section_graph(graph),
            graph_successors(graph).len() == old(self).original_sections@.len(),
            acyclic(graph_successors(graph)),
        ensures
            exists|order: Seq<usize>|
                is_linear_extension(graph_successors(graph), order) && final(self).reordered_as(
                    order,
                ),
            final(self).same_manuscript(old(self)),
            final(self).constraints == old(self).constraints,
            old(self).well_formed() ==> final(self).well_formed(),
    {
        let indices = random_order(graph).unwrap();
        let ghost order = indices@;
        self.keep_order(indices);
        assert(is_linear_extension(graph_successors(graph), order) && self.reordered_as(order));
    }

    /// Answers a request for a reordering. Where it is not allowed, or the
    /// constraints do not fit the sections, nothing happens. Otherwise the
    /// paradoxes are marked, and where there is none, the sections are
    /// shuffled. The answer says whether there is a new reordering.
    pub fn request_shuffle(&mut self) -> (shuffled: bool)
        ensures
            shuffled <==> old(self).shuffle_allowed() && old(self).constraints_fit() && acyclic(
                precedence_successors(rules_of(old(self).constraints@)),
            ),
            final(self).same_manuscript(old(self)),
            old(self).shuffle_allowed() && old(self).constraints_fit() ==> {
                &&& marked(old(self).constraints@, final(self).constraints@)
                &&& forall|v: usize|
                    v < old(self).constraints@.len() ==> (#[trigger] paradox_at(
                        rules_of(old(self).constraints@),
                        v,
                    ) is Some <==> exists|path: Seq<usize>|
                        is_cycle(
                            precedence_successors(rules_of(old(self).constraints@)),
                            v,
                            path,
                        ))
            },
            !(old(self).shuffle_allowed() && old(self).constraints_fit())
                ==> final(self).constraints == old(self).constraints,
            shuffled ==> exists|order: Seq<usize>|
                is_linear_extension(
                    precedence_successors(rules_of(old(self).constraints@)),
                    order,
                ) && final(self).reordered_as(order),
            !shuffled ==> final(self).same_reordering(old(self)),
            old(self).well_formed() ==> final(self).well_formed(),
    {
        if !self.can_shuffle() {
            return false;
        }
        let count = self.constraints.len();
        if count != self.original_sections.len() || count == usize::MAX || !check_references(
            self.constraints.as_slice(),
        ) {
            return false;
        }
        proof {
            lemma_precedence_edges(rules_of(self.constraints@));
        }
        match self.mark_cycles() {
            Some(graph) => {
                self.shuffle(graph);
                true
            },
            None => false,
        }
    }
}

impl Default for StoryShufflerApp {
    fn default() -> (app: Self)
        ensures
            app.is_fresh(),
            app.well_formed(),
    {
        StoryShufflerApp {
            original_manuscript: String::new(),
            delimiter_pattern_is_regex: false,
            delimiter_pattern: String::from_str("* * *"),
            delimiter_regex_error: None,
            original_sections: Vec::new(),
            constraints: Vec::new(),
            shuffled_section_indices: None,
            shuffled_sections: None,
        }
    }
}

} // verus!
