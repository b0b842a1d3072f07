//! The per-file collection of compressor entries, unique by name and kept in
//! first-seen order.
use vstd::prelude::*;

verus! {

/// One compressor's results within one benchmark file.
pub struct Compression {
    pub compressor: String,
    pub bytes: Option<u64>,
    pub time_pack: Option<String>,
    pub time_unpack: Option<String>,
}

/// The mathematical value of a `Compression`.
pub struct EntryModel {
    pub compressor: Seq<char>,
    pub bytes: Option<u64>,
    pub time_pack: Option<Seq<char>>,
    pub time_unpack: Option<Seq<char>>,
}

pub open spec fn text_opt(o: Option<String>) -> Option<Seq<char>> {
    match o {
        Some(s) => Some(s@),
        None => None,
    }
}

impl View for Compression {
    type V = EntryModel;

    open spec fn view(&self) -> EntryModel {
        EntryModel {
            compressor: self.compressor@,
            bytes: self.bytes,
            time_pack: text_opt(self.time_pack),
            time_unpack: text_opt(self.time_unpack),
        }
    }
}

pub open spec fn entries_view(v: Seq<Compression>) -> Seq<EntryModel> {
    v.map_values(|c: Compression| c@)
}

/// A new entry with nothing recorded yet.
pub open spec fn fresh_entry(name: Seq<char>) -> EntryModel {
    EntryModel { compressor: name, bytes: None, time_pack: None, time_unpack: None }
}

/// The index of the last entry named `name`.
pub open spec fn last_index_of(es: Seq<EntryModel>, name: Seq<char>) -> Option<int>
    decreases es.len(),
{
    if es.len() == 0 {
        None
    } else if es.last().compressor == name {
        Some(es.len() - 1)
    } else {
        last_index_of(es.drop_last(), name)
    }
}

/// The entries once `name` is sure to be among them.
pub open spec fn with_entry(es: Seq<EntryModel>, name: Seq<char>) -> Seq<EntryModel> {
    match last_index_of(es, name) {
        Some(_) => es,
        None => es.push(fresh_entry(name)),
    }
}

/// Where `name` stands in `with_entry(es, name)`.
pub open spec fn entry_index(es: Seq<EntryModel>, name: Seq<char>) -> int {
    match last_index_of(es, name) {
        Some(i) => i,
        None => es.len() as int,
    }
}

/// No two entries share a name.
pub open spec fn names_unique(es: Seq<EntryModel>) -> bool {
    forall|i: int, j: int|
        0 <= i < es.len() && 0 <= j < es.len() && i != j ==> es[i].compressor != es[j].compressor
}

pub proof fn lemma_last_index_of(es: Seq<EntryModel>, name: Seq<char>)
    ensures
        match last_index_of(es, name) {
            Some(i) => 0 <= i < es.len() && es[i].compressor == name,
            None => forall|j: int| 0 <= j < es.len() ==> es[j].compressor != name,
        },
    decreases es.len(),
{
    if es.len() > 0 && es.last().compressor != name {
        lemma_last_index_of(es.drop_last(), name);
        assert forall|j: int| 0 <= j < es.len() - 1 implies es[j] == es.drop_last()[j] by {}
    }
}

/// Looking an entry up never breaks uniqueness, and the entry found carries the name.
pub proof fn lemma_with_entry(es: Seq<EntryModel>, name: Seq<char>)
    requires
        names_unique(es),
    ensures
        names_unique(with_entry(es, name)),
        0 <= entry_index(es, name) < with_entry(es, name).len(),
        with_entry(es, name)[entry_index(es, name)].compressor == name,
        with_entry(es, name).len() == es.len() || with_entry(es, name).len() == es.len() + 1,
        forall|j: int| 0 <= j < es.len() ==> with_entry(es, name)[j] == es[j],
{
    lemma_last_index_of(es, name);
}

/// Returns the entry named `name`, adding a fresh one at the end when none
/// exists yet. The search runs from the back, so the most recently added
/// entry of that name is the one returned.
pub fn get_compressor<'c>(compressions: &'c mut Vec<Compression>, name: &str) -> (r: &'c mut Compression)
    ensures
        (*r)@ == with_entry(entries_view(old(compressions)@), name@)[entry_index(
            entries_view(old(compressions)@),
            name@,
        )],
        entries_view(final(compressions)@) == with_entry(
            entries_view(old(compressions)@),
            name@,
        ).update(entry_index(entries_view(old(compressions)@), name@), (*final(r))@),
        final(compressions)@.len() == with_entry(entries_view(old(compressions)@), name@).len(),
{
    let ghost es = entries_view(compressions@);
    let key = name.to_owned();
    let mut i: usize = compressions.len();
    let mut found = false;
    proof {
        lemma_last_index_of(es, name@);
        assert(es.subrange(0, i as int) =~= es);
    }
    while i > 0
        invariant_except_break
            !found,
        invariant
            i <= compressions@.len(),
            es == entries_view(compressions@),
            key@ == name@,
            last_index_of(es, name@) == last_index_of(es.subrange(0, i as int), name@),
        ensures
            found ==> 0 < i && last_index_of(es, name@) == Some(i - 1),
            !found ==> i == 0 && last_index_of(es, name@) == last_index_of(es.subrange(0, 0), name@),
        decreases i,
    {
        assert(es.subrange(0, i as int).last() == es[i - 1]);
        if compressions[i - 1].compressor == key {
            found = true;
            break;
        }
        assert(es.subrange(0, i as int).drop_last() =~= es.subrange(0, i - 1));
        i -= 1;
    }
    let pos = if found {
        i - 1
    } else {
        assert(es.subrange(0, 0) =~= Seq::<EntryModel>::empty());
        compressions.push(
            Compression { compressor: key, bytes: None, time_pack: None, time_unpack: None },
        );
        assert(entries_view(compressions@) =~= es.push(fresh_entry(name@)));
        compressions.len() - 1
    };
    assert(entries_view(compressions@).len() == compressions@.len());
    &mut compressions[pos]
}

} // verus!
