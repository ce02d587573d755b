//! The organization tables: the concordance of organization IDs and the
//! organizations that are active.
use std::collections::{BTreeSet, HashMap};
use vstd::prelude::*;

use crate::compiler::error::{CompilerError, CompilerErrorView};
use crate::compiler::table::{
    cell, cell_text, column, normalized_header, normalized_headers, parse_u32, row_view,
    spec_parse_u32,
};
use crate::external::string_from_chars;
use crate::text::chars_of;

verus! {

broadcast use {vstd::std_specs::hash::group_hash_axioms, vstd::std_specs::btree::group_btree_axioms, vstd::laws_cmp::group_laws_cmp};

/// A CSV table: its header cells, the records read before the first one that
/// could not be read, and whether every record was read.
pub struct Table {
    pub headers: Vec<String>,
    pub records: Vec<Vec<String>>,
    pub complete: bool,
}

/// The contents of a table, with its cells as character sequences.
pub struct TableView {
    pub headers: Seq<Seq<char>>,
    pub records: Seq<Seq<Seq<char>>>,
    pub complete: bool,
}

/// The records of a table with their cells as character sequences.
pub open spec fn rows_view(records: Seq<Vec<String>>) -> Seq<Seq<Seq<char>>> {
    records.map_values(|r: Vec<String>| row_view(r@))
}

impl View for Table {
    type V = TableView;

    open spec fn view(&self) -> TableView {
        TableView {
            headers: row_view(self.headers@),
            records: rows_view(self.records@),
            complete: self.complete,
        }
    }
}

/// The contents of a table that may be missing.
pub open spec fn optional_table_view(t: Option<Table>) -> Option<TableView> {
    match t {
        Some(t) => Some(t@),
        None => None,
    }
}

/// The index of the first header that is `name` once normalized.
pub open spec fn header_column(headers: Seq<Seq<char>>, name: Seq<char>) -> Option<int>
    decreases headers.len(),
{
    if headers.len() == 0 {
        None
    } else {
        match header_column(headers.drop_last(), name) {
            Some(i) => Some(i),
            None => if normalized_header(headers.last()) == name {
                Some(headers.len() - 1)
            } else {
                None
            },
        }
    }
}

/// The column `name` of a table with the given headers, or `MissingColumn`.
pub open spec fn spec_column(headers: Seq<Seq<char>>, name: Seq<char>, path: Seq<char>) -> Result<
    int,
    CompilerErrorView,
> {
    match header_column(headers, name) {
        Some(i) => Ok(i),
        None => Err(CompilerErrorView::MissingColumn { column: name, path }),
    }
}

proof fn lemma_header_column(headers: Seq<Seq<char>>, name: Seq<char>)
    ensures
        match header_column(headers, name) {
            Some(i) => 0 <= i < headers.len() && normalized_header(headers[i]) == name && forall|j: int|
                0 <= j < i ==> normalized_header(#[trigger] headers[j]) != name,
            None => forall|j: int|
                0 <= j < headers.len() ==> normalized_header(#[trigger] headers[j]) != name,
        },
    decreases headers.len(),
{
    if headers.len() > 0 {
        lemma_header_column(headers.drop_last(), name);
        assert forall|j: int| 0 <= j < headers.len() - 1 implies headers[j] == headers.drop_last()[j] by {}
    }
}

/// Finds column `name` of `table`.
pub fn find_column(table: &Table, name: &str, path: &str) -> (r: Result<usize, CompilerError>)
    ensures
        match r {
            Ok(i) => spec_column(table@.headers, name@, path@) == Ok::<int, CompilerErrorView>(i as int),
            Err(e) => spec_column(table@.headers, name@, path@) == Err::<int, CompilerErrorView>(e@),
        },
{
    let headers = normalized_headers(&table.headers);
    let r = column(&headers, name, path);
    proof {
        let hv = table@.headers;
        assert forall|j: int| 0 <= j < hv.len() implies #[trigger] hv[j] == table.headers@[j]@ by {}
        lemma_header_column(hv, name@);
        match header_column(hv, name@) {
            Some(k) => {
                assert(headers[k]@ == normalized_header(hv[k]));
                if let Ok(i) = r {
                    assert(normalized_header(hv[i as int]) == name@);
                }
            },
            None => {
                if let Ok(i) = r {
                    assert(normalized_header(hv[i as int]) == name@);
                }
                match r {
                    Ok(_) => {},
                    Err(_) => {
                        assert forall|j: int| 0 <= j < hv.len() implies normalized_header(#[trigger] hv[j]) != name@ by {
                            assert(headers[j]@ == normalized_header(hv[j]));
                        }
                    },
                }
            },
        }
    }
    r
}

/// The IDs in column `index` of the records, or the first error in reading one.
pub open spec fn spec_parse_ids(
    records: Seq<Seq<Seq<char>>>,
    index: int,
    column_name: Seq<char>,
    path: Seq<char>,
) -> Result<Seq<u32>, CompilerErrorView>
    decreases records.len(),
{
    if records.len() == 0 {
        Ok(Seq::empty())
    } else {
        match spec_parse_ids(records.drop_last(), index, column_name, path) {
            Err(e) => Err(e),
            Ok(ids) => match spec_parse_u32(cell(records.last(), index)) {
                Some(id) => Ok(ids.push(id)),
                None => Err(
                    CompilerErrorView::InvalidInteger {
                        value: cell(records.last(), index),
                        column: column_name,
                        path,
                    },
                ),
            },
        }
    }
}

/// The result of reading every record of a table: `MalformedTable` where a
/// record could not be read and nothing before it failed.
pub open spec fn after_all_records<T>(table: TableView, path: Seq<char>, r: Result<T, CompilerErrorView>) -> Result<
    T,
    CompilerErrorView,
> {
    match r {
        Err(e) => Err(e),
        Ok(v) => if table.complete {
            Ok(v)
        } else {
            Err(CompilerErrorView::MalformedTable { path })
        },
    }
}

/// The organization IDs of the concordance table, or the first error.
pub open spec fn spec_concordance_ids(table: TableView, path: Seq<char>) -> Result<
    Seq<u32>,
    CompilerErrorView,
> {
    match spec_column(table.headers, "gc_orgID"@, path) {
        Err(e) => Err(e),
        Ok(i) => after_all_records(table, path, spec_parse_ids(table.records, i, "gc_orgID"@, path)),
    }
}

/// Reads the organization IDs of the concordance table, as a set.
pub fn load_concordance_ids(table: &Table, path: &str) -> (r: Result<BTreeSet<u32>, CompilerError>)
    ensures
        match r {
            Ok(ids) => {
                &&& spec_concordance_ids(table@, path@) is Ok
                &&& ids@ == spec_concordance_ids(table@, path@)->Ok_0.to_set()
            },
            Err(e) => spec_concordance_ids(table@, path@) == Err::<Seq<u32>, CompilerErrorView>(e@),
        },
{
    let id_index = find_column(table, "gc_orgID", path)?;
    let ghost rows = table@.records;
    let mut ids: BTreeSet<u32> = BTreeSet::new();
    let ghost mut read: Seq<u32> = Seq::empty();
    let mut i: usize = 0;
    assert(rows.take(0) =~= Seq::<Seq<Seq<char>>>::empty());
    assert(ids@ =~= read.to_set());
    while i < table.records.len()
        invariant
            i <= table.records.len(),
            rows == table@.records,
            rows.len() == table.records.len(),
            spec_column(table@.headers, "gc_orgID"@, path@) == Ok::<int, CompilerErrorView>(
                id_index as int,
            ),
            spec_parse_ids(rows.take(i as int), id_index as int, "gc_orgID"@, path@)
                == Ok::<Seq<u32>, CompilerErrorView>(read),
            ids@ == read.to_set(),
        decreases table.records.len() - i,
    {
        assert(rows.take(i + 1).drop_last() =~= rows.take(i as int));
        assert(rows.take(i + 1).last() == row_view(table.records@[i as int]@));
        let id = match parse_u32(&table.records[i], id_index, "gc_orgID", path) {
            Ok(id) => id,
            Err(e) => {
                proof {
                    lemma_parse_ids_error_persists(
                        rows,
                        i as int + 1,
                        id_index as int,
                        "gc_orgID"@,
                        path@,
                    );
                }
                return Err(e);
            },
        };
        ids.insert(id);
        proof {
            let prev = read;
            read = read.push(id);
            assert(ids@ =~= read.to_set()) by {
                assert forall|x: u32| read.to_set().contains(x) <==> ids@.contains(x) by {
                    if read.contains(x) && x != id {
                        let k = choose|k: int| 0 <= k < read.len() && read[k] == x;
                        assert(prev[k] == x);
                    }
                    if prev.contains(x) {
                        let k = choose|k: int| 0 <= k < prev.len() && prev[k] == x;
                        assert(read[k] == x);
                    }
                    if x == id {
                        assert(read[read.len() - 1] == x);
                    }
                }
            }
        }
        i = i + 1;
    }
    assert(rows.take(table.records.len() as int) =~= rows);
    if !table.complete {
        return Err(CompilerError::MalformedTable { path: path.to_owned() });
    }
    Ok(ids)
}

/// Once reading a prefix of the records fails, reading all of them fails the same way.
proof fn lemma_parse_ids_error_persists(
    records: Seq<Seq<Seq<char>>>,
    k: int,
    index: int,
    column_name: Seq<char>,
    path: Seq<char>,
)
    requires
        0 <= k <= records.len(),
        spec_parse_ids(records.take(k), index, column_name, path) is Err,
    ensures
        spec_parse_ids(records, index, column_name, path) == spec_parse_ids(
            records.take(k),
            index,
            column_name,
            path,
        ),
    decreases records.len() - k,
{
    if k < records.len() {
        assert(records.drop_last().take(k) =~= records.take(k));
        lemma_parse_ids_error_persists(records.drop_last(), k, index, column_name, path);
    } else {
        assert(records.take(k) =~= records);
    }
}

/// The eligible organizations of the organization table, in table order, or
/// the first error: the rows whose status is not `t` (terminated), with their
/// ID and names; a blank or other status remains eligible.
pub open spec fn spec_active_rows(
    records: Seq<Seq<Seq<char>>>,
    id_index: int,
    status_index: int,
    en_index: int,
    fr_index: int,
    path: Seq<char>,
) -> Result<Seq<(u32, Seq<char>, Seq<char>)>, CompilerErrorView>
    decreases records.len(),
{
    if records.len() == 0 {
        Ok(Seq::empty())
    } else {
        match spec_active_rows(records.drop_last(), id_index, status_index, en_index, fr_index, path) {
            Err(e) => Err(e),
            Ok(orgs) => {
                let row = records.last();
                if cell(row, status_index) == "t"@ {
                    Ok(orgs)
                } else {
                    match spec_parse_u32(cell(row, id_index)) {
                        Some(id) => Ok(orgs.push((id, cell(row, en_index), cell(row, fr_index)))),
                        None => Err(
                            CompilerErrorView::InvalidInteger {
                                value: cell(row, id_index),
                                column: "gc_orgID"@,
                                path,
                            },
                        ),
                    }
                }
            },
        }
    }
}

/// The eligible organizations of the organization table, or the first error.
pub open spec fn spec_active_organizations(table: TableView, path: Seq<char>) -> Result<
    Seq<(u32, Seq<char>, Seq<char>)>,
    CompilerErrorView,
> {
    match spec_column(table.headers, "gc_orgID"@, path) {
        Err(e) => Err(e),
        Ok(id_index) => match spec_column(table.headers, "status_statut"@, path) {
            Err(e) => Err(e),
            Ok(status_index) => match spec_column(table.headers, "preferred_name"@, path) {
                Err(e) => Err(e),
                Ok(en_index) => match spec_column(table.headers, "nom_préféré"@, path) {
                    Err(e) => Err(e),
                    Ok(fr_index) => after_all_records(
                        table,
                        path,
                        spec_active_rows(
                            table.records,
                            id_index,
                            status_index,
                            en_index,
                            fr_index,
                            path,
                        ),
                    ),
                },
            },
        },
    }
}

/// The names of the eligible organizations keyed by ID, as a map filled in
/// table order keeps them: a later row of an ID replaces an earlier one.
pub open spec fn organization_map(orgs: Seq<(u32, Seq<char>, Seq<char>)>) -> Map<
    u32,
    (Seq<char>, Seq<char>),
>
    decreases orgs.len(),
{
    if orgs.len() == 0 {
        Map::empty()
    } else {
        organization_map(orgs.drop_last()).insert(orgs.last().0, (orgs.last().1, orgs.last().2))
    }
}

/// The names in a map keyed by organization ID, as character sequences.
pub open spec fn names_view(m: Map<u32, (String, String)>) -> Map<u32, (Seq<char>, Seq<char>)> {
    Map::new(|k: u32| m.contains_key(k), |k: u32| (m[k].0@, m[k].1@))
}

/// Reads the English and French names of the eligible organizations of the
/// organization table (those not marked terminated), keyed by ID.
pub fn load_active_organizations(table: &Table, path: &str) -> (r: Result<
    HashMap<u32, (String, String)>,
    CompilerError,
>)
    ensures
        match r {
            Ok(orgs) => {
                &&& spec_active_organizations(table@, path@) is Ok
                &&& names_view(orgs@) == organization_map(spec_active_organizations(table@, path@)->Ok_0)
            },
            Err(e) => spec_active_organizations(table@, path@) == Err::<
                Seq<(u32, Seq<char>, Seq<char>)>,
                CompilerErrorView,
            >(e@),
        },
{
    let id_index = find_column(table, "gc_orgID", path)?;
    let status_index = find_column(table, "status_statut", path)?;
    let en_index = find_column(table, "preferred_name", path)?;
    let fr_index = find_column(table, "nom_préféré", path)?;
    let ghost records = table@.records;
    let terminated = chars_of("t");
    let mut orgs: HashMap<u32, (String, String)> = HashMap::new();
    let ghost mut read: Seq<(u32, Seq<char>, Seq<char>)> = Seq::empty();
    let mut i: usize = 0;
    assert(records.take(0) =~= Seq::<Seq<Seq<char>>>::empty());
    assert(names_view(orgs@) =~= organization_map(read));
    while i < table.records.len()
        invariant
            i <= table.records.len(),
            records == table@.records,
            records.len() == table.records.len(),
            terminated@ == "t"@,
            spec_active_organizations(table@, path@) == after_all_records(
                table@,
                path@,
                spec_active_rows(
                    records,
                    id_index as int,
                    status_index as int,
                    en_index as int,
                    fr_index as int,
                    path@,
                ),
            ),
            spec_active_rows(
                records.take(i as int),
                id_index as int,
                status_index as int,
                en_index as int,
                fr_index as int,
                path@,
            ) == Ok::<Seq<(u32, Seq<char>, Seq<char>)>, CompilerErrorView>(read),
            names_view(orgs@) == organization_map(read),
        decreases table.records.len() - i,
    {
        assert(records.take(i + 1).drop_last() =~= records.take(i as int));
        assert(records.take(i + 1).last() == row_view(table.records@[i as int]@));
        let row = &table.records[i];
        let status = cell_text(row, status_index);
        if !crate::text::chars_equal(&status, &terminated) {
            let id = match parse_u32(row, id_index, "gc_orgID", path) {
                Ok(id) => id,
                Err(e) => {
                    proof {
                        lemma_active_rows_error_persists(
                            records,
                            i as int + 1,
                            id_index as int,
                            status_index as int,
                            en_index as int,
                            fr_index as int,
                            path@,
                        );
                    }
                    return Err(e);
                },
            };
            let name_en = string_from_chars(&cell_text(row, en_index));
            let name_fr = string_from_chars(&cell_text(row, fr_index));
            let ghost entry = (id, name_en@, name_fr@);
            let ghost before = orgs@;
            orgs.insert(id, (name_en, name_fr));
            proof {
                let prev = read;
                read = read.push(entry);
                assert(read.drop_last() =~= prev);
                assert(names_view(orgs@) =~= names_view(before).insert(id, (entry.1, entry.2)));
            }
        }
        i = i + 1;
    }
    assert(records.take(table.records.len() as int) =~= records);
    if !table.complete {
        return Err(CompilerError::MalformedTable { path: path.to_owned() });
    }
    Ok(orgs)
}

proof fn lemma_active_rows_error_persists(
    records: Seq<Seq<Seq<char>>>,
    k: int,
    id_index: int,
    status_index: int,
    en_index: int,
    fr_index: int,
    path: Seq<char>,
)
    requires
        0 <= k <= records.len(),
        spec_active_rows(records.take(k), id_index, status_index, en_index, fr_index, path) is Err,
    ensures
        spec_active_rows(records, id_index, status_index, en_index, fr_index, path)
            == spec_active_rows(records.take(k), id_index, status_index, en_index, fr_index, path),
    decreases records.len() - k,
{
    if k < records.len() {
        assert(records.drop_last().take(k) =~= records.take(k));
        lemma_active_rows_error_persists(
            records.drop_last(),
            k,
            id_index,
            status_index,
            en_index,
            fr_index,
            path,
        );
        assert(records.drop_last().take(k) =~= records.take(k));
    } else {
        assert(records.take(k) =~= records);
    }
}

/// The names of organization `id` among the eligible organizations.
pub fn find_organization(orgs: &HashMap<u32, (String, String)>, id: u32) -> (r: Option<
    (String, String),
>)
    ensures
        match r {
            Some((en, fr)) => names_view(orgs@).contains_key(id) && names_view(orgs@)[id] == (
                en@,
                fr@,
            ),
            None => !names_view(orgs@).contains_key(id),
        },
{
    match orgs.get(&id) {
        Some(names) => Some((names.0.as_str().to_owned(), names.1.as_str().to_owned())),
        None => None,
    }
}

/// Whether `id` is among `ids`.
pub fn contains_id(ids: &BTreeSet<u32>, id: u32) -> (r: bool)
    ensures
        r == ids@.contains(id),
{
    ids.contains(&id)
}

} // verus!
