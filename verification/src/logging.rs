//! Structured log lines.

use crate::json::JsonValue;
use crate::rows;
use crate::text::{owned, same};
use vstd::prelude::*;

verus! {

/// The named values of a line.
pub open spec fn named(fields: Seq<(String, JsonValue)>) -> Seq<(Seq<char>, JsonValue)> {
    Seq::new(fields.len(), |i: int| (fields[i].0@, fields[i].1))
}

pub open spec fn name_is(key: Seq<char>) -> spec_fn((Seq<char>, JsonValue)) -> bool {
    |p: (Seq<char>, JsonValue)| p.0 == key
}

/// A line with more values: a later one replaces one of the same name, and values that are
/// null are left out.
pub open spec fn with_fields(
    line: Seq<(Seq<char>, JsonValue)>,
    fields: Seq<(Seq<char>, JsonValue)>,
) -> Seq<(Seq<char>, JsonValue)>
    decreases fields.len(),
{
    if fields.len() == 0 {
        line
    } else {
        let before = with_fields(line, fields.drop_last());
        let (key, value) = fields.last();
        if value is Null {
            before
        } else {
            rows::put_row(before, name_is(key), (key, value))
        }
    }
}

fn put_field(line: &mut Vec<(String, JsonValue)>, key: String, value: JsonValue)
    ensures
        named(final(line)@) == rows::put_row(named(old(line)@), name_is(key@), (key@, value)),
{
    let ghost before = named(line@);
    let ghost p = name_is(key@);
    let mut i: usize = 0;
    while i < line.len()
        invariant
            i <= line.len(),
            *line == *old(line),
            before == named(line@),
            p == name_is(key@),
            forall|k: int| 0 <= k < i ==> !p(#[trigger] before[k]),
        decreases line.len() - i,
    {
        if same(line[i].0.as_str(), key.as_str()) {
            proof {
                assert(p(before[i as int]));
                rows::lemma_first_is(before, p, i as int);
            }
            let ghost row = (key@, value);
            line.set(i, (key, value));
            proof {
                assert(named(line@) =~= before.update(i as int, row));
            }
            return ;
        }
        i = i + 1;
    }
    proof {
        rows::lemma_first_none(before, p);
    }
    let ghost row = (key@, value);
    line.push((key, value));
    proof {
        assert(named(line@) =~= before.push(row));
    }
}

fn is_null(v: &JsonValue) -> (r: bool)
    ensures
        r == (*v is Null),
{
    match v {
        JsonValue::Null => true,
        _ => false,
    }
}

/// What every line starts with.
pub open spec fn is_core(
    line: Seq<(Seq<char>, JsonValue)>,
    ts: Seq<char>,
    level: Seq<char>,
    event: Seq<char>,
) -> bool {
    &&& line.len() == 3
    &&& line[0].0 == "ts"@
    &&& line[0].1 matches JsonValue::Text(t)
    &&& t@ == ts
    &&& line[1].0 == "level"@
    &&& line[1].1 matches JsonValue::Text(l)
    &&& l@ == level
    &&& line[2].0 == "event"@
    &&& line[2].1 matches JsonValue::Text(e)
    &&& e@ == event
}

/// A log line: when, how grave, what, and the details that are not null.
pub fn build_structured_log_payload(
    ts: &str,
    level: &str,
    event: &str,
    fields: Vec<(String, JsonValue)>,
) -> (r: JsonValue)
    ensures
        r matches JsonValue::Object(entries) && exists|core: Seq<(Seq<char>, JsonValue)>|
            #[trigger] is_core(core, ts@, level@, event@) && named(entries@) == with_fields(
                core,
                named(fields@),
            ),
{
    let mut line: Vec<(String, JsonValue)> = Vec::new();
    line.push((owned("ts"), JsonValue::Text(owned(ts))));
    line.push((owned("level"), JsonValue::Text(owned(level))));
    line.push((owned("event"), JsonValue::Text(owned(event))));
    let ghost core = named(line@);
    let ghost all = named(fields@);
    proof {
        assert(is_core(core, ts@, level@, event@));
    }
    let mut rest = fields;
    let ghost mut done: int = 0;
    proof {
        assert(all.take(0) =~= Seq::empty());
    }
    while rest.len() > 0
        invariant
            0 <= done <= all.len(),
            named(rest@) == all.skip(done),
            named(line@) == with_fields(core, all.take(done)),
        decreases rest.len(),
    {
        let ghost before = named(rest@);
        proof {
            assert(before.len() == all.skip(done).len());
        }
        let (key, value) = rest.remove(0);
        proof {
            assert(before[0] == all[done]);
            assert(named(rest@) =~= before.skip(1));
            assert(before.skip(1) =~= all.skip(done + 1));
            assert(all.take(done + 1).drop_last() =~= all.take(done));
            assert(all.take(done + 1).last() == all[done]);
        }
        if !is_null(&value) {
            put_field(&mut line, key, value);
        }
        proof {
            done = done + 1;
        }
    }
    proof {
        assert(all.take(done) =~= all);
    }
    JsonValue::Object(line)
}

/// A detail that is null does not show.
pub proof fn lemma_nulls_are_dropped(
    line: Seq<(Seq<char>, JsonValue)>,
    fields: Seq<(Seq<char>, JsonValue)>,
)
    requires
        forall|i: int| 0 <= i < fields.len() ==> (#[trigger] fields[i]).1 is Null,
    ensures
        with_fields(line, fields) == line,
    decreases fields.len(),
{
    if fields.len() > 0 {
        assert(fields.last().1 is Null);
        assert forall|i: int| 0 <= i < fields.drop_last().len() implies (
        #[trigger] fields.drop_last()[i]).1 is Null by {
            assert(fields[i].1 is Null);
        }
        lemma_nulls_are_dropped(line, fields.drop_last());
    }
}

/// The last value under a name is the one that a line shows, unless it is null.
pub proof fn lemma_last_value_is_shown(
    line: Seq<(Seq<char>, JsonValue)>,
    a: Seq<(Seq<char>, JsonValue)>,
    key: Seq<char>,
    value: JsonValue,
    b: Seq<(Seq<char>, JsonValue)>,
)
    requires
        !(value is Null),
        forall|i: int| 0 <= i < b.len() ==> (#[trigger] b[i]).0 != key || b[i].1 is Null,
    ensures
        rows::found(with_fields(line, a + seq![(key, value)] + b), name_is(key)) == Some(
            (key, value),
        ),
    decreases b.len(),
{
    let all = a + seq![(key, value)] + b;
    if b.len() == 0 {
        assert(all.drop_last() =~= a);
        assert(all.last() == (key, value));
        rows::lemma_put_found(with_fields(line, a), name_is(key), (key, value));
    } else {
        let init = b.drop_last();
        assert(all.drop_last() =~= a + seq![(key, value)] + init);
        assert(all.last() == b[b.len() - 1]);
        assert forall|i: int| 0 <= i < init.len() implies (#[trigger] init[i]).0 != key
            || init[i].1 is Null by {
            assert(init[i] == b[i]);
        }
        lemma_last_value_is_shown(line, a, key, value, init);
        let (k, v) = b.last();
        if !(v is Null) {
            assert(k != key);
            rows::lemma_put_other(
                with_fields(line, all.drop_last()),
                name_is(k),
                (k, v),
                name_is(key),
            );
        }
    }
}

/// What a line shows under a name stays where no value under that name comes.
pub proof fn lemma_other_names_stay(
    line: Seq<(Seq<char>, JsonValue)>,
    fields: Seq<(Seq<char>, JsonValue)>,
    key: Seq<char>,
)
    requires
        forall|i: int| 0 <= i < fields.len() ==> (#[trigger] fields[i]).0 != key || fields[i].1 is Null,
    ensures
        rows::found(with_fields(line, fields), name_is(key)) == rows::found(line, name_is(key)),
    decreases fields.len(),
{
    if fields.len() > 0 {
        let init = fields.drop_last();
        assert forall|i: int| 0 <= i < init.len() implies (#[trigger] init[i]).0 != key
            || init[i].1 is Null by {
            assert(init[i] == fields[i]);
        }
        lemma_other_names_stay(line, init, key);
        let (k, v) = fields[fields.len() - 1];
        if !(v is Null) {
            assert(k != key);
            rows::lemma_put_other(with_fields(line, init), name_is(k), (k, v), name_is(key));
        }
    }
}

} // verus!
