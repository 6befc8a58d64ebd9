//! The tools that a request offers, by name.
use vstd::prelude::*;
use vstd::string::*;

use crate::json;
use crate::text;
use crate::types::ToolDef;

verus! {

/// A name with the schema of its tool.
pub ghost struct ToolEntry {
    pub name: Seq<char>,
    pub schema: Option<Seq<char>>,
}

/// The position of the tool with the name `name`.
pub open spec fn tool_index(tools: Seq<ToolEntry>, name: Seq<char>) -> Option<int>
    decreases tools.len(),
{
    if tools.len() == 0 {
        None
    } else if tools.last().name == name {
        Some(tools.len() - 1)
    } else {
        tool_index(tools.drop_last(), name)
    }
}

pub open spec fn has_tool(tools: Seq<ToolEntry>, name: Seq<char>) -> bool {
    tool_index(tools, name) is Some
}

/// No two entries have the same name.
pub open spec fn names_distinct(tools: Seq<ToolEntry>) -> bool {
    forall|i: int, j: int|
        0 <= i < j < tools.len() ==> (#[trigger] tools[i]).name != (#[trigger] tools[j]).name
}

/// The tools with `entry` put in: in the place of the tool of that name, else
/// at the end.
pub open spec fn with_tool(tools: Seq<ToolEntry>, entry: ToolEntry) -> Seq<ToolEntry> {
    match tool_index(tools, entry.name) {
        Some(i) => tools.update(i, entry),
        None => tools.push(entry),
    }
}

/// The tools of `defs` put in one after the other.
pub open spec fn table_of(defs: Seq<ToolDef>) -> Seq<ToolEntry>
    decreases defs.len(),
{
    if defs.len() == 0 {
        Seq::empty()
    } else {
        with_tool(table_of(defs.drop_last()), entry_of(defs.last().name@, defs.last()))
    }
}

pub open spec fn entry_of(name: Seq<char>, def: ToolDef) -> ToolEntry {
    ToolEntry { name, schema: json::opt_view(def.input_schema) }
}

/// The properties that a schema describes, with their descriptions.
pub open spec fn properties(schema: Option<Seq<char>>) -> Option<Seq<(Seq<char>, Seq<char>)>> {
    match schema {
        Some(s) => match json::json_member(s, "properties"@) {
            Some(p) => json::json_members(p),
            None => None,
        },
        None => None,
    }
}

/// What `tool_index` finds is the last tool of that name.
pub proof fn lemma_tool_index(tools: Seq<ToolEntry>, name: Seq<char>)
    ensures
        match tool_index(tools, name) {
            Some(i) => 0 <= i < tools.len() && tools[i].name == name && forall|j: int|
                i < j < tools.len() ==> (#[trigger] tools[j]).name != name,
            None => forall|j: int| 0 <= j < tools.len() ==> (#[trigger] tools[j]).name != name,
        },
    decreases tools.len(),
{
    if tools.len() > 0 && tools.last().name != name {
        lemma_tool_index(tools.drop_last(), name);
        assert forall|j: int| 0 <= j < tools.len() - 1 implies tools.drop_last()[j]
            == #[trigger] tools[j] by {}
    }
}

/// Putting a tool in makes it the one of its name, changes no other, and keeps
/// the names distinct.
pub proof fn law_with_tool(tools: Seq<ToolEntry>, entry: ToolEntry, other: Seq<char>)
    requires
        names_distinct(tools),
    ensures
        names_distinct(with_tool(tools, entry)),
        tool_index(with_tool(tools, entry), entry.name) matches Some(i) && with_tool(
            tools,
            entry,
        )[i] == entry,
        other != entry.name ==> tool_index(with_tool(tools, entry), other) == tool_index(
            tools,
            other,
        ),
        other != entry.name ==> (tool_index(tools, other) matches Some(i) ==> with_tool(
            tools,
            entry,
        )[i] == tools[i]),
{
    let after = with_tool(tools, entry);
    lemma_tool_index(tools, entry.name);
    lemma_tool_index(after, entry.name);
    lemma_tool_index(tools, other);
    lemma_tool_index(after, other);
    if let Some(i) = tool_index(tools, entry.name) {
        assert(after[i] == entry);
        assert(after[tool_index(after, entry.name)->0].name == entry.name);
    } else {
        assert(after[after.len() - 1] == entry);
    }
    if other != entry.name {
        match (tool_index(tools, other), tool_index(after, other)) {
            (Some(i), Some(j)) => {
                assert(after[i] == tools[i]);
                assert(after[j] == tools[j]);
            },
            (Some(i), None) => {
                assert(after[i] == tools[i]);
            },
            (None, Some(j)) => {
                assert(after[j] == tools[j]);
            },
            (None, None) => {},
        }
    }
}

/// The tools that a request offers, each under a name of its own.
pub struct ToolTable {
    entries: Vec<(String, ToolDef)>,
}

impl View for ToolTable {
    type V = Seq<ToolEntry>;

    closed spec fn view(&self) -> Seq<ToolEntry> {
        entry_views(self.entries@)
    }
}

spec fn entry_views(v: Seq<(String, ToolDef)>) -> Seq<ToolEntry> {
    v.map_values(|e: (String, ToolDef)| entry_of(e.0@, e.1))
}

impl ToolTable {
    #[verifier::type_invariant]
    spec fn names_are_distinct(self) -> bool {
        names_distinct(entry_views(self.entries@))
    }

    /// The table without tools.
    pub fn new() -> (r: ToolTable)
        ensures
            r@ == Seq::<ToolEntry>::empty(),
    {
        let r = ToolTable { entries: Vec::new() };
        assert(r@ =~= Seq::<ToolEntry>::empty());
        r
    }

    /// The tools of a request; of two with the same name the later one stays.
    pub fn of(defs: &Vec<ToolDef>) -> (r: ToolTable)
        ensures
            r@ == table_of(defs@),
            names_distinct(r@),
    {
        let mut r = ToolTable::new();
        let mut i: usize = 0;
        assert(defs@.take(0) =~= Seq::<ToolDef>::empty());
        while i < defs.len()
            invariant
                i <= defs@.len(),
                r@ == table_of(defs@.take(i as int)),
            decreases defs.len() - i,
        {
            r.insert(defs[i].name.clone(), defs[i].clone());
            assert(defs@.take(i + 1).drop_last() =~= defs@.take(i as int));
            i = i + 1;
        }
        assert(defs@.take(defs@.len() as int) =~= defs@);
        proof {
            use_type_invariant(&r);
        }
        r
    }

    /// Puts a tool in under `name`.
    pub fn insert(&mut self, name: String, def: ToolDef)
        ensures
            final(self)@ == with_tool(old(self)@, entry_of(name@, def)),
            names_distinct(final(self)@),
    {
        proof {
            use_type_invariant(&*self);
            law_with_tool(self@, entry_of(name@, def), name@);
        }
        let found = self.position(name.as_str());
        let mut entries: Vec<(String, ToolDef)> = Vec::new();
        std::mem::swap(&mut entries, &mut self.entries);
        let ghost start = entries@;
        match found {
            Some(i) => {
                entries.set(i, (name, def));
                assert(entry_views(entries@) =~= entry_views(start).update(
                    i as int,
                    entry_of(name@, def),
                ));
            },
            None => {
                entries.push((name, def));
                assert(entry_views(entries@) =~= entry_views(start).push(entry_of(name@, def)));
            },
        }
        self.entries = entries;
    }

    /// The position of the tool with the name `name`.
    pub fn position(&self, name: &str) -> (r: Option<usize>)
        ensures
            match r {
                Some(i) => tool_index(self@, name@) == Some(i as int) && i < self@.len(),
                None => tool_index(self@, name@) is None,
            },
    {
        let mut n: usize = self.entries.len();
        assert(self@.take(self@.len() as int) =~= self@);
        while n > 0
            invariant
                n <= self@.len(),
                self@.len() == self.entries@.len(),
                tool_index(self@, name@) == tool_index(self@.take(n as int), name@),
            decreases n,
        {
            assert(self@.take(n as int).last() == entry_of(
                self.entries@[n - 1].0@,
                self.entries@[n - 1].1,
            ));
            if text::same(self.entries[n - 1].0.as_str(), name) {
                return Some(n - 1);
            }
            assert(self@.take(n as int).drop_last() =~= self@.take(n - 1));
            n = n - 1;
        }
        None
    }

    pub fn contains(&self, name: &str) -> (r: bool)
        ensures
            r == has_tool(self@, name@),
    {
        self.position(name).is_some()
    }

    pub fn len(&self) -> (n: usize)
        ensures
            n == self@.len(),
    {
        self.entries.len()
    }

    pub fn is_empty(&self) -> (r: bool)
        ensures
            r == (self@.len() == 0),
    {
        self.entries.len() == 0
    }

    /// The name of the tool at a position.
    pub fn name_at(&self, i: usize) -> (r: String)
        requires
            i < self@.len(),
        ensures
            r@ == self@[i as int].name,
    {
        self.entries[i].0.clone()
    }

    /// The properties that the schema of the tool at a position describes.
    pub fn properties_at(&self, i: usize) -> (r: Option<Vec<(String, String)>>)
        requires
            i < self@.len(),
        ensures
            match r {
                Some(v) => properties(self@[i as int].schema) == Some(json::pair_views(v@)),
                None => properties(self@[i as int].schema) is None,
            },
    {
        match &self.entries[i].1.input_schema {
            Some(j) => match j.get("properties") {
                Some(p) => p.members(),
                None => None,
            },
            None => None,
        }
    }
}

/// The tools of a request are those that it defines: each name once, with the
/// schema of its last definition.
pub proof fn law_table(defs: Seq<ToolDef>, name: Seq<char>)
    ensures
        names_distinct(table_of(defs)),
        has_tool(table_of(defs), name) <==> exists|i: int|
            0 <= i < defs.len() && (#[trigger] defs[i]).name@ == name,
        forall|i: int|
            0 <= i < defs.len() && (#[trigger] defs[i]).name@ == name && (forall|j: int|
                i < j < defs.len() ==> (#[trigger] defs[j]).name@ != name) ==> (tool_index(
                table_of(defs),
                name,
            ) matches Some(k) && table_of(defs)[k].name == name && table_of(defs)[k].schema
                == json::opt_view(defs[i].input_schema)),
    decreases defs.len(),
{
    if defs.len() > 0 {
        let front = defs.drop_last();
        let n = front.len() as int;
        law_table(front, name);
        assert(forall|i: int| 0 <= i < n ==> front[i] == defs[i]);
        let e = entry_of(defs.last().name@, defs.last());
        law_with_tool(table_of(front), e, name);
        lemma_tool_index(table_of(defs), name);
        lemma_tool_index(table_of(front), name);
        assert(defs[n] == defs.last());
        if has_tool(table_of(defs), name) {
            if e.name == name {
                assert(defs[n].name@ == name);
            } else {
                let i = choose|i: int| 0 <= i < front.len() && (#[trigger] front[i]).name@ == name;
                assert(defs[i].name@ == name);
            }
        }
        if exists|i: int| 0 <= i < defs.len() && (#[trigger] defs[i]).name@ == name {
            let i = choose|i: int| 0 <= i < defs.len() && (#[trigger] defs[i]).name@ == name;
            if i < n {
                assert(front[i].name@ == name);
            }
        }
        assert forall|i: int|
            0 <= i < defs.len() && (#[trigger] defs[i]).name@ == name && (forall|j: int|
                i < j < defs.len() ==> (#[trigger] defs[j]).name@ != name) implies (tool_index(
            table_of(defs),
            name,
        ) matches Some(k) && table_of(defs)[k].name == name && table_of(defs)[k].schema
            == json::opt_view(defs[i].input_schema)) by {
            if i < n {
                assert(defs[n].name@ != name);
                assert(front[i] == defs[i]);
                assert forall|j: int| i < j < front.len() implies (#[trigger] front[j]).name@
                    != name by {
                    assert(front[j] == defs[j]);
                }
            }
        }
    }
}

} // verus!
