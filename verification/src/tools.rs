//! The categories of tools, and which tool belongs to which.
use vstd::prelude::*;

use crate::text;
use crate::text::{chars_of, push_char, same, starts_with, to_lower, trim};

verus! {

/// A group of tools that is enabled, and granted, as one.
#[derive(Clone, Copy, Debug, PartialEq, Eq, Structural)]
pub enum ToolCategory {
    GraphRead,
    GraphWrite,
    Vectors,
    Code,
}

/// The text with every underscore as a hyphen.
pub open spec fn hyphened(s: Seq<char>) -> Seq<char> {
    s.map_values(
        |c: char|
            if c == '_' {
                '-'
            } else {
                c
            },
    )
}

fn hyphenate(s: &str) -> (r: String)
    ensures
        r@ == hyphened(s@),
{
    let v: Vec<char> = chars_of(s);
    let mut out: String = String::new();
    let mut i: usize = 0;
    while i < v.len()
        invariant
            i <= v@.len(),
            out@ == hyphened(v@.take(i as int)),
        decreases v@.len() - i,
    {
        push_char(
            &mut out,
            if v[i] == '_' {
                '-'
            } else {
                v[i]
            },
        );
        assert(out@ =~= hyphened(v@.take(i + 1)));
        i += 1;
    }
    assert(v@.take(v@.len() as int) =~= v@);
    out
}

impl ToolCategory {
    /// Every category.
    pub fn all() -> (r: Vec<ToolCategory>)
        ensures
            r@ == seq![
                ToolCategory::GraphRead,
                ToolCategory::GraphWrite,
                ToolCategory::Vectors,
                ToolCategory::Code,
            ],
    {
        vec![
            ToolCategory::GraphRead,
            ToolCategory::GraphWrite,
            ToolCategory::Vectors,
            ToolCategory::Code,
        ]
    }

    /// The one spelling under which the category is stored and compared.
    pub open spec fn spelled(self) -> Seq<char> {
        match self {
            ToolCategory::GraphRead => "graph-read"@,
            ToolCategory::GraphWrite => "graph-write"@,
            ToolCategory::Vectors => "vectors"@,
            ToolCategory::Code => "code"@,
        }
    }

    /// The one spelling under which the category is stored and compared.
    pub fn slug(self) -> (r: &'static str)
        ensures
            r@ == self.spelled(),
    {
        match self {
            ToolCategory::GraphRead => "graph-read",
            ToolCategory::GraphWrite => "graph-write",
            ToolCategory::Vectors => "vectors",
            ToolCategory::Code => "code",
        }
    }

    /// The category that a text names: its spelling, in any case, with
    /// underscores for hyphens and with white space around it.
    pub open spec fn named(s: Seq<char>) -> Option<ToolCategory> {
        let slug = hyphened(text::lowered(text::trimmed(s)));
        if slug == "graph-read"@ {
            Some(ToolCategory::GraphRead)
        } else if slug == "graph-write"@ {
            Some(ToolCategory::GraphWrite)
        } else if slug == "vectors"@ {
            Some(ToolCategory::Vectors)
        } else if slug == "code"@ {
            Some(ToolCategory::Code)
        } else {
            None
        }
    }

    /// Reads the name of a category.
    pub fn parse(s: &str) -> (r: std::result::Result<ToolCategory, String>)
        ensures
            match r {
                Ok(c) => ToolCategory::named(s@) == Some(c),
                Err(why) => ToolCategory::named(s@) is None && why@ == "unknown tool category '"@ + s@
                    + "'"@,
            },
    {
        let slug: String = hyphenate(&to_lower(&trim(s)));
        if same(&slug, "graph-read") {
            Ok(ToolCategory::GraphRead)
        } else if same(&slug, "graph-write") {
            Ok(ToolCategory::GraphWrite)
        } else if same(&slug, "vectors") {
            Ok(ToolCategory::Vectors)
        } else if same(&slug, "code") {
            Ok(ToolCategory::Code)
        } else {
            Err("unknown tool category '".to_owned().concat(s).concat("'"))
        }
    }

    /// The spelling of a category names the category.
    pub proof fn law_slug_names_its_category(self)
        ensures
            ToolCategory::named(self.spelled()) == Some(self),
    {
        reveal_strlit("graph-read");
        reveal_strlit("graph-write");
        reveal_strlit("vectors");
        reveal_strlit("code");
        let s = self.spelled();
        assert("graph-read"@.len() == 10 && "graph-write"@.len() == 11 && "vectors"@.len() == 7
            && "code"@.len() == 4);
        assert(!text::white_space(s[0]) && !text::white_space(s.last()));
        assert(text::trimmed(s) =~= s);
        assert(forall|i: int| 0 <= i < s.len() ==> #[trigger] s[i] == '-' || 'a' <= s[i] <= 'z');
        assert(hyphened(text::lowered(s)) =~= s);
    }
}

/// The categories in the list that are read from the names; the fault of the
/// first name that is none.
pub open spec fn categories(names: Seq<Seq<char>>) -> std::result::Result<
    Seq<ToolCategory>,
    Seq<char>,
>
    decreases names.len(),
{
    if names.len() == 0 {
        Ok(Seq::empty())
    } else {
        match categories(names.drop_last()) {
            Err(why) => Err(why),
            Ok(before) => match ToolCategory::named(names.last()) {
                Some(c) => Ok(before.push(c)),
                None => Err("unknown tool category '"@ + names.last() + "'"@),
            },
        }
    }
}

/// Reads a list of names.
pub fn parse_categories(names: &Vec<String>) -> (r: std::result::Result<Vec<ToolCategory>, String>)
    ensures
        match r {
            Ok(v) => categories(text::texts(names@)) == Ok::<Seq<ToolCategory>, Seq<char>>(v@),
            Err(why) => categories(text::texts(names@)) == Err::<Seq<ToolCategory>, Seq<char>>(why@),
        },
{
    let ghost all = text::texts(names@);
    let mut out: Vec<ToolCategory> = Vec::new();
    let mut fault: Option<String> = None;
    let mut i: usize = 0;
    assert(all.take(0) =~= Seq::<Seq<char>>::empty());
    while i < names.len()
        invariant
            i <= names@.len(),
            all == text::texts(names@),
            match fault {
                Some(why) => categories(all.take(i as int)) == Err::<Seq<ToolCategory>, Seq<char>>(why@),
                None => categories(all.take(i as int)) == Ok::<Seq<ToolCategory>, Seq<char>>(out@),
            },
        decreases names@.len() - i,
    {
        assert(all.take(i + 1).drop_last() =~= all.take(i as int));
        assert(all.take(i + 1).last() == names@[i as int]@);
        if fault.is_none() {
            match ToolCategory::parse(&names[i]) {
                Ok(c) => {
                    out.push(c);
                },
                Err(why) => {
                    fault = Some(why);
                },
            }
        }
        i += 1;
    }
    assert(all.take(all.len() as int) =~= all);
    match fault {
        Some(why) => Err(why),
        None => Ok(out),
    }
}

/// The tool reads the graph.
pub open spec fn reads_graph(tool: Seq<char>) -> bool {
    ||| tool == "read_graph"@
    ||| tool == "search_nodes"@
    ||| tool == "open_nodes"@
    ||| tool == "get_entity"@
    ||| tool == "graph_stats"@
    ||| tool == "search_relations"@
    ||| tool == "find_path"@
    ||| tool == "find_all_paths"@
    ||| tool == "get_neighbors"@
    ||| tool == "describe_entity"@
    ||| tool == "list_entity_types"@
    ||| tool == "list_relation_types"@
    ||| tool == "export_graph"@
    ||| tool == "extract_subgraph"@
    ||| tool == "batch_get_entities"@
    ||| tool == "entity_exists"@
    ||| tool == "degree"@
}

/// The tool writes to the graph.
pub open spec fn writes_graph(tool: Seq<char>) -> bool {
    ||| tool == "create_entities"@
    ||| tool == "create_relations"@
    ||| tool == "add_observations"@
    ||| tool == "delete_entities"@
    ||| tool == "delete_observations"@
    ||| tool == "delete_relations"@
    ||| tool == "upsert_entities"@
    ||| tool == "merge_entities"@
    ||| tool == "rename_entity"@
    ||| tool == "compact"@
}

/// The tool works on vectors.
pub open spec fn uses_vectors(tool: Seq<char>) -> bool {
    ||| tool == "hybrid_search"@
    ||| "vector_"@.is_prefix_of(tool)
}

/// The tool works on source code.
pub open spec fn uses_code(tool: Seq<char>) -> bool {
    ||| tool == "code_index"@
    ||| tool == "code_outline"@
    ||| tool == "code_search"@
    ||| tool == "code_get_symbol"@
    ||| tool == "code_watch"@
    ||| tool == "code_embed"@
    ||| tool == "code_semantic_search"@
}

/// The category of a tool; nothing for a name that is no tool.
pub open spec fn category(tool: Seq<char>) -> Option<ToolCategory> {
    if reads_graph(tool) {
        Some(ToolCategory::GraphRead)
    } else if writes_graph(tool) {
        Some(ToolCategory::GraphWrite)
    } else if uses_vectors(tool) {
        Some(ToolCategory::Vectors)
    } else if uses_code(tool) {
        Some(ToolCategory::Code)
    } else {
        None
    }
}

/// The category of a tool.
pub fn category_of(tool: &str) -> (r: Option<ToolCategory>)
    ensures
        r == category(tool@),
{
    if same(tool, "read_graph") || same(tool, "search_nodes") || same(tool, "open_nodes") || same(
        tool,
        "get_entity",
    ) || same(tool, "graph_stats") || same(tool, "search_relations") || same(tool, "find_path") || same(
        tool,
        "find_all_paths",
    ) || same(tool, "get_neighbors") || same(tool, "describe_entity") || same(tool, "list_entity_types")
        || same(tool, "list_relation_types") || same(tool, "export_graph") || same(
        tool,
        "extract_subgraph",
    ) || same(tool, "batch_get_entities") || same(tool, "entity_exists") || same(tool, "degree") {
        Some(ToolCategory::GraphRead)
    } else if same(tool, "create_entities") || same(tool, "create_relations") || same(
        tool,
        "add_observations",
    ) || same(tool, "delete_entities") || same(tool, "delete_observations") || same(
        tool,
        "delete_relations",
    ) || same(tool, "upsert_entities") || same(tool, "merge_entities") || same(tool, "rename_entity")
        || same(tool, "compact") {
        Some(ToolCategory::GraphWrite)
    } else if same(tool, "hybrid_search") || starts_with(tool, "vector_") {
        Some(ToolCategory::Vectors)
    } else if same(tool, "code_index") || same(tool, "code_outline") || same(tool, "code_search")
        || same(tool, "code_get_symbol") || same(tool, "code_watch") || same(tool, "code_embed") || same(
        tool,
        "code_semantic_search",
    ) {
        Some(ToolCategory::Code)
    } else {
        None
    }
}

/// The scope that a tool needs; nothing for a name that is no tool.
pub fn scope_of(tool: &str) -> (r: Option<&'static str>)
    ensures
        match r {
            Some(s) => category(tool@) matches Some(c) && s@ == c.spelled(),
            None => category(tool@) is None,
        },
{
    match category_of(tool) {
        Some(c) => Some(c.slug()),
        None => None,
    }
}

/// Underscores become hyphens, one for one, and nothing else changes.
pub proof fn law_only_underscores_become_hyphens(s: Seq<char>, i: int)
    requires
        0 <= i < s.len(),
    ensures
        hyphened(s).len() == s.len(),
        s[i] == '_' ==> hyphened(s)[i] == '-',
        s[i] != '_' ==> hyphened(s)[i] == s[i],
{
}

/// A name means its category however it is written: what counts is its spelling
/// once white space, case and underscores are set aside.
pub proof fn law_a_category_is_known_by_its_spelling(s: Seq<char>, c: ToolCategory)
    ensures
        ToolCategory::named(s) == Some(c) <==> hyphened(text::lowered(text::trimmed(s))) == c.spelled(),
        ToolCategory::named(s) is None <==> forall|d: ToolCategory|
            hyphened(text::lowered(text::trimmed(s))) != #[trigger] d.spelled(),
        ToolCategory::GraphRead.spelled() == "graph-read"@,
        ToolCategory::GraphWrite.spelled() == "graph-write"@,
        ToolCategory::Vectors.spelled() == "vectors"@,
        ToolCategory::Code.spelled() == "code"@,
{
    reveal_strlit("graph-read");
    reveal_strlit("graph-write");
    reveal_strlit("vectors");
    reveal_strlit("code");
    assert("graph-read"@.len() == 10 && "graph-write"@.len() == 11 && "vectors"@.len() == 7 && "code"@.len()
        == 4);
    let slug = hyphened(text::lowered(text::trimmed(s)));
    if ToolCategory::named(s) is None {
        assert forall|d: ToolCategory| slug != #[trigger] d.spelled() by {}
    } else {
        let d = ToolCategory::named(s)->0;
        assert(slug == d.spelled());
    }
}

/// Two categories never share a spelling.
pub proof fn law_spellings_differ(a: ToolCategory, b: ToolCategory)
    requires
        a.spelled() == b.spelled(),
    ensures
        a == b,
{
    a.law_slug_names_its_category();
    b.law_slug_names_its_category();
}

/// A list of names is read from the first to the last: each means its own
/// category, in its own place, and one that means none spoils the list.
pub proof fn law_every_name_is_read(names: Seq<Seq<char>>)
    ensures
        categories(names) is Ok <==> forall|i: int|
            0 <= i < names.len() ==> ToolCategory::named(#[trigger] names[i]) is Some,
        categories(names) matches Ok(v) ==> v.len() == names.len() && forall|i: int|
            0 <= i < names.len() ==> ToolCategory::named(#[trigger] names[i]) == Some(v[i]),
    decreases names.len(),
{
    if names.len() > 0 {
        let front = names.drop_last();
        law_every_name_is_read(front);
        assert(names[names.len() - 1] == names.last());
        if forall|i: int| 0 <= i < names.len() ==> ToolCategory::named(#[trigger] names[i]) is Some {
            assert forall|i: int| 0 <= i < front.len() implies ToolCategory::named(#[trigger] front[i]) is Some by {
                assert(front[i] == names[i]);
            }
        }
        if categories(front) is Ok {
            assert forall|i: int| 0 <= i < front.len() implies ToolCategory::named(#[trigger] names[i]) is Some by {
                assert(front[i] == names[i]);
            }
        }
        if let Ok(v) = categories(names) {
            assert forall|i: int| 0 <= i < names.len() implies ToolCategory::named(#[trigger] names[i]) == Some(
                v[i],
            ) by {
                if i < front.len() {
                    assert(front[i] == names[i]);
                }
            }
        }
    }
}

/// The tools of each category, every one of them, and nothing without a category
/// is a tool.
pub proof fn law_every_tool_has_its_category(tool: Seq<char>, rest: Seq<char>)
    ensures
        reads_graph("read_graph"@) && reads_graph("search_nodes"@) && reads_graph("open_nodes"@) && reads_graph(
            "get_entity"@,
        ) && reads_graph("graph_stats"@) && reads_graph("search_relations"@) && reads_graph("find_path"@)
            && reads_graph("find_all_paths"@) && reads_graph("get_neighbors"@) && reads_graph(
            "describe_entity"@,
        ) && reads_graph("list_entity_types"@) && reads_graph("list_relation_types"@) && reads_graph(
            "export_graph"@,
        ) && reads_graph("extract_subgraph"@) && reads_graph("batch_get_entities"@) && reads_graph(
            "entity_exists"@,
        ) && reads_graph("degree"@),
        writes_graph("create_entities"@) && writes_graph("create_relations"@) && writes_graph(
            "add_observations"@,
        ) && writes_graph("delete_entities"@) && writes_graph("delete_observations"@) && writes_graph(
            "delete_relations"@,
        ) && writes_graph("upsert_entities"@) && writes_graph("merge_entities"@) && writes_graph(
            "rename_entity"@,
        ) && writes_graph("compact"@),
        uses_vectors("hybrid_search"@) && uses_vectors("vector_"@ + rest),
        uses_code("code_index"@) && uses_code("code_outline"@) && uses_code("code_search"@) && uses_code(
            "code_get_symbol"@,
        ) && uses_code("code_watch"@) && uses_code("code_embed"@) && uses_code("code_semantic_search"@),
        category(tool) is None <==> !reads_graph(tool) && !writes_graph(tool) && !uses_vectors(tool)
            && !uses_code(tool),
        category(tool) == Some(ToolCategory::GraphRead) <==> reads_graph(tool),
        category(tool) == Some(ToolCategory::GraphWrite) ==> writes_graph(tool),
        category(tool) == Some(ToolCategory::Vectors) ==> uses_vectors(tool),
        category(tool) == Some(ToolCategory::Code) ==> uses_code(tool),
{
    assert("vector_"@.is_prefix_of("vector_"@ + rest));
}

} // verus!
