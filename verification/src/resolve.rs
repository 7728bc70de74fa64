//! Variables and placeholders. An environment maps keys to values, each key
//! once; a placeholder `$key` in a text is replaced by the value of `key`.
//! Longer keys are substituted before shorter ones, so that a key that begins
//! another key never eats the other's placeholder; the fixed placeholder
//! `$CONFIG_ROOT_PATH` is substituted last.

use vstd::prelude::*;
use crate::text::{
    chars_of, lemma_replaced_absent, occurs_in, replace_all, replaced, same_text, string_of,
};

verus! {

/// One variable of an environment.
#[derive(Debug, Clone)]
pub struct EnvVar {
    pub key: String,
    pub value: String,
}

/// The keys and values of a list of variables, as texts.
pub open spec fn pairs(vars: Seq<EnvVar>) -> Seq<(Seq<char>, Seq<char>)> {
    vars.map_values(|v: EnvVar| (v.key@, v.value@))
}

/// The position of the variable `key` in `env`, if there is one: the last
/// position that holds this key.
pub open spec fn key_index(env: Seq<(Seq<char>, Seq<char>)>, key: Seq<char>) -> Option<int>
    decreases env.len(),
{
    if env.len() == 0 {
        None
    } else if env.last().0 == key {
        Some(env.len() - 1)
    } else {
        key_index(env.drop_last(), key)
    }
}

/// The value of `key` in `env`, if it has one.
pub open spec fn lookup(env: Seq<(Seq<char>, Seq<char>)>, key: Seq<char>) -> Option<Seq<char>> {
    match key_index(env, key) {
        Some(i) => Some(env[i].1),
        None => None,
    }
}

/// `env` with `binding` written into it: in place of the variable with the same
/// key, or as a new last variable.
pub open spec fn upserted(env: Seq<(Seq<char>, Seq<char>)>, binding: (Seq<char>, Seq<char>)) -> Seq<
    (Seq<char>, Seq<char>),
> {
    match key_index(env, binding.0) {
        Some(i) => env.update(i, binding),
        None => env.push(binding),
    }
}

/// The environment that a list of bindings builds up when they are written one
/// after the other: a later binding overwrites an earlier one with the same
/// key.
pub open spec fn env_of(bindings: Seq<(Seq<char>, Seq<char>)>) -> Seq<(Seq<char>, Seq<char>)>
    decreases bindings.len(),
{
    if bindings.len() == 0 {
        seq![]
    } else {
        upserted(env_of(bindings.drop_last()), bindings.last())
    }
}

/// No key occurs twice.
pub open spec fn distinct_keys(env: Seq<(Seq<char>, Seq<char>)>) -> bool {
    forall|i: int, j: int| 0 <= i < j < env.len() ==> (#[trigger] env[i]).0 != (#[trigger] env[j]).0
}

/// `key_index` gives a position that holds the key, and none where no
/// position holds it.
pub proof fn lemma_key_index(env: Seq<(Seq<char>, Seq<char>)>, key: Seq<char>)
    ensures
        key_index(env, key) matches Some(i) ==> 0 <= i < env.len() && env[i].0 == key,
        key_index(env, key) is None <==> forall|i: int|
            0 <= i < env.len() ==> (#[trigger] env[i]).0 != key,
    decreases env.len(),
{
    if env.len() > 0 {
        let front = env.drop_last();
        lemma_key_index(front, key);
        if env.last().0 != key {
            if key_index(front, key) is None {
                assert forall|i: int| 0 <= i < env.len() implies (#[trigger] env[i]).0 != key by {
                    if i < front.len() {
                        assert(front[i] == env[i]);
                    }
                }
            } else {
                let i = key_index(front, key)->0;
                assert(env[i] == front[i]);
            }
        }
    }
}

/// Writing a binding keeps the keys distinct, makes its key read as its value
/// and leaves every other key as it was.
pub proof fn lemma_upserted(
    env: Seq<(Seq<char>, Seq<char>)>,
    binding: (Seq<char>, Seq<char>),
    other: Seq<char>,
)
    requires
        distinct_keys(env),
    ensures
        distinct_keys(upserted(env, binding)),
        lookup(upserted(env, binding), binding.0) == Some(binding.1),
        other != binding.0 ==> lookup(upserted(env, binding), other) == lookup(env, other),
{
    let after = upserted(env, binding);
    lemma_key_index(env, binding.0);
    lemma_key_index(env, other);
    lemma_key_index(after, binding.0);
    lemma_key_index(after, other);
    match key_index(env, binding.0) {
        Some(i) => {
            assert(after[i] == binding);
            assert forall|a: int, b: int| 0 <= a < b < after.len() implies (#[trigger] after[a]).0
                != (#[trigger] after[b]).0 by {
                assert(after[a].0 == env[a].0);
                assert(after[b].0 == env[b].0);
            }
            lemma_unique_position(after, binding.0, i);
            if other != binding.0 {
                match key_index(env, other) {
                    Some(k) => {
                        assert(after[k] == env[k]);
                        lemma_unique_position(after, other, k);
                    },
                    None => {
                        assert forall|k: int| 0 <= k < after.len() implies (#[trigger] after[k]).0
                            != other by {
                            if k != i {
                                assert(after[k] == env[k]);
                            }
                        }
                    },
                }
            }
        },
        None => {
            assert(after.last() == binding);
            assert(after.drop_last() =~= env);
            assert forall|a: int, b: int| 0 <= a < b < after.len() implies (#[trigger] after[a]).0
                != (#[trigger] after[b]).0 by {
                assert(after[a] == env[a]);
                if b < env.len() {
                    assert(after[b] == env[b]);
                }
            }
            if other != binding.0 {
                assert(key_index(after, other) == key_index(env, other));
                if let Some(k) = key_index(env, other) {
                    assert(after[k] == env[k]);
                }
            }
        },
    }
}

/// Where the keys are distinct, the one position that holds a key is the one
/// that `key_index` gives.
pub proof fn lemma_unique_position(env: Seq<(Seq<char>, Seq<char>)>, key: Seq<char>, at: int)
    requires
        distinct_keys(env),
        0 <= at < env.len(),
        env[at].0 == key,
    ensures
        key_index(env, key) == Some(at),
{
    lemma_key_index(env, key);
    let i = key_index(env, key)->0;
    if i < at {
        assert(env[i].0 != env[at].0);
    } else if at < i {
        assert(env[at].0 != env[i].0);
    }
}

/// An environment built from bindings holds no key twice.
pub proof fn lemma_env_keys_distinct(bindings: Seq<(Seq<char>, Seq<char>)>)
    ensures
        distinct_keys(env_of(bindings)),
    decreases bindings.len(),
{
    if bindings.len() > 0 {
        lemma_env_keys_distinct(bindings.drop_last());
        lemma_upserted(env_of(bindings.drop_last()), bindings.last(), bindings.last().0);
    }
}

/// Later bindings overwrite earlier ones: a key reads as the value of the last
/// binding that has it, and has no value where no binding has it.
pub proof fn lemma_env_reads_last_binding(bindings: Seq<(Seq<char>, Seq<char>)>, key: Seq<char>)
    ensures
        lookup(env_of(bindings), key) == lookup(bindings, key),
    decreases bindings.len(),
{
    if bindings.len() > 0 {
        let front = bindings.drop_last();
        lemma_env_keys_distinct(front);
        lemma_env_reads_last_binding(front, key);
        lemma_upserted(env_of(front), bindings.last(), key);
        if bindings.last().0 != key {
            lemma_key_index(front, key);
            if let Some(i) = key_index(front, key) {
                assert(front[i] == bindings[i]);
            }
        }
    }
}

/// Writes the variable `key` with `value` into `env`.
#[verifier::loop_isolation(false)]
pub fn upsert(env: &mut Vec<EnvVar>, key: String, value: String)
    ensures
        pairs(final(env)@) == upserted(pairs(old(env)@), (key@, value@)),
{
    let ghost before = pairs(env@);
    let mut i: usize = env.len();
    assert(before.take(i as int) =~= before);
    while i > 0
        invariant
            i <= env.len(),
            pairs(env@) == before,
            key_index(before, key@) == key_index(before.take(i as int), key@),
        decreases i,
    {
        let ghost upto = before.take(i as int);
        assert(upto.last() == before[i - 1]);
        assert(upto.drop_last() =~= before.take(i - 1));
        assert(before[i - 1] == (env@[i - 1].key@, env@[i - 1].value@));
        if same_text(env[i - 1].key.as_str(), key.as_str()) {
            assert(key_index(before, key@) == Some(i - 1));
            env.set(i - 1, EnvVar { key, value });
            assert(pairs(env@) =~= before.update(i - 1, (key@, value@)));
            return ;
        }
        i -= 1;
    }
    assert(key_index(before, key@) is None);
    env.push(EnvVar { key, value });
    assert(pairs(env@) =~= before.push((key@, value@)));
}

/// `sorted` with `binding` put in by the length of its key: behind the last
/// variable whose key is at least as long.
pub open spec fn inserted(sorted: Seq<(Seq<char>, Seq<char>)>, binding: (Seq<char>, Seq<char>)) -> Seq<
    (Seq<char>, Seq<char>),
>
    decreases sorted.len(),
{
    if sorted.len() == 0 {
        seq![binding]
    } else if sorted.last().0.len() >= binding.0.len() {
        sorted.push(binding)
    } else {
        inserted(sorted.drop_last(), binding).push(sorted.last())
    }
}

/// The variables of `env` in the order in which they are substituted: longer
/// keys first, and keys of one length in the order they have in `env`.
pub open spec fn by_length(env: Seq<(Seq<char>, Seq<char>)>) -> Seq<(Seq<char>, Seq<char>)>
    decreases env.len(),
{
    if env.len() == 0 {
        seq![]
    } else {
        inserted(by_length(env.drop_last()), env.last())
    }
}

/// No variable stands before one with a longer key.
pub open spec fn longest_first(vars: Seq<(Seq<char>, Seq<char>)>) -> bool {
    forall|i: int, j: int|
        0 <= i < j < vars.len() ==> (#[trigger] vars[i]).0.len() >= (#[trigger] vars[j]).0.len()
}

/// Putting a variable in by length keeps the longest first and adds exactly
/// that variable.
pub proof fn lemma_inserted(sorted: Seq<(Seq<char>, Seq<char>)>, binding: (Seq<char>, Seq<char>))
    requires
        longest_first(sorted),
    ensures
        longest_first(inserted(sorted, binding)),
        inserted(sorted, binding).to_multiset() == sorted.to_multiset().insert(binding),
        inserted(sorted, binding).len() == sorted.len() + 1,
    decreases sorted.len(),
{
    broadcast use vstd::seq_lib::group_to_multiset_ensures;

    let after = inserted(sorted, binding);
    if sorted.len() == 0 {
        assert(after =~= Seq::<(Seq<char>, Seq<char>)>::empty().push(binding));
    } else if sorted.last().0.len() >= binding.0.len() {
        assert forall|i: int, j: int| 0 <= i < j < after.len() implies (#[trigger] after[i]).0.len()
            >= (#[trigger] after[j]).0.len() by {
            assert(after[i] == sorted[i]);
            if j < sorted.len() {
                assert(after[j] == sorted[j]);
            } else {
                assert(sorted[i].0.len() >= sorted.last().0.len() || i == sorted.len() - 1);
            }
        }
    } else {
        let front = sorted.drop_last();
        assert forall|i: int, j: int| 0 <= i < j < front.len() implies (#[trigger] front[i]).0.len()
            >= (#[trigger] front[j]).0.len() by {
            assert(front[i] == sorted[i]);
            assert(front[j] == sorted[j]);
        }
        lemma_inserted(front, binding);
        let mid = inserted(front, binding);
        assert(sorted =~= front.push(sorted.last()));
        lemma_members_of_inserted(front, binding);
        assert forall|i: int, j: int| 0 <= i < j < after.len() implies (#[trigger] after[i]).0.len()
            >= (#[trigger] after[j]).0.len() by {
            assert(after[i] == mid[i]);
            if j < mid.len() {
                assert(after[j] == mid[j]);
            } else {
                assert(after[j] == sorted.last());
                if mid[i] != binding {
                    let k = choose|k: int| 0 <= k < front.len() && front[k] == mid[i];
                    assert(sorted[k] == front[k]);
                    assert(sorted[k].0.len() >= sorted[sorted.len() - 1].0.len());
                }
            }
        }
    }
}

/// Every variable of `inserted(sorted, binding)` is `binding` or one of
/// `sorted`.
pub proof fn lemma_members_of_inserted(
    sorted: Seq<(Seq<char>, Seq<char>)>,
    binding: (Seq<char>, Seq<char>),
)
    ensures
        forall|i: int|
            0 <= i < inserted(sorted, binding).len() ==> (#[trigger] inserted(sorted, binding)[i])
                == binding || sorted.contains(inserted(sorted, binding)[i]),
    decreases sorted.len(),
{
    let after = inserted(sorted, binding);
    if sorted.len() == 0 {
    } else if sorted.last().0.len() >= binding.0.len() {
        assert forall|i: int| 0 <= i < after.len() implies (#[trigger] after[i]) == binding
            || sorted.contains(after[i]) by {
            if i < sorted.len() {
                assert(after[i] == sorted[i]);
            }
        }
    } else {
        let front = sorted.drop_last();
        lemma_members_of_inserted(front, binding);
        let mid = inserted(front, binding);
        assert forall|i: int| 0 <= i < after.len() implies (#[trigger] after[i]) == binding
            || sorted.contains(after[i]) by {
            if i < mid.len() {
                assert(after[i] == mid[i]);
                if mid[i] != binding {
                    let k = choose|k: int| 0 <= k < front.len() && front[k] == mid[i];
                    assert(sorted[k] == front[k]);
                }
            } else {
                assert(after[i] == sorted[sorted.len() - 1]);
            }
        }
    }
}

/// The order of substitution puts the longest keys first and holds the
/// variables of the environment, each as often as the environment does.
pub proof fn lemma_by_length(env: Seq<(Seq<char>, Seq<char>)>)
    ensures
        longest_first(by_length(env)),
        by_length(env).to_multiset() == env.to_multiset(),
        by_length(env).len() == env.len(),
    decreases env.len(),
{
    broadcast use vstd::seq_lib::group_to_multiset_ensures;

    if env.len() > 0 {
        lemma_by_length(env.drop_last());
        lemma_inserted(by_length(env.drop_last()), env.last());
        assert(env =~= env.drop_last().push(env.last()));
    }
}

/// Puts `var` into `sorted` by the length of its key.
pub fn insert_by_length(sorted: &mut Vec<EnvVar>, var: EnvVar)
    ensures
        pairs(final(sorted)@) == inserted(pairs(old(sorted)@), (var.key@, var.value@)),
{
    let ghost before = pairs(sorted@);
    let ghost binding = (var.key@, var.value@);
    let wanted = var.key.as_str().unicode_len();
    let mut at: usize = sorted.len();
    assert(before.take(at as int) =~= before);
    assert(before.skip(at as int) =~= Seq::<(Seq<char>, Seq<char>)>::empty());
    assert(inserted(before.take(at as int), binding) + Seq::<(Seq<char>, Seq<char>)>::empty()
        =~= inserted(before, binding));
    while at > 0 && sorted[at - 1].key.as_str().unicode_len() < wanted
        invariant
            at <= sorted.len(),
            pairs(sorted@) == before,
            wanted == binding.0.len(),
            inserted(before, binding) == inserted(before.take(at as int), binding) + before.skip(
                at as int,
            ),
        decreases at,
    {
        let ghost upto = before.take(at as int);
        proof {
            assert(before[at - 1] == (sorted@[at - 1].key@, sorted@[at - 1].value@));
            assert(upto.last() == before[at - 1]);
            assert(upto.drop_last() =~= before.take(at - 1));
            assert(inserted(upto, binding) == inserted(upto.drop_last(), binding).push(
                upto.last(),
            ));
            assert(inserted(upto.drop_last(), binding).push(upto.last()) + before.skip(at as int)
                =~= inserted(before.take(at - 1), binding) + before.skip(at - 1));
        }
        at -= 1;
    }
    proof {
        let upto = before.take(at as int);
        if at > 0 {
            assert(before[at - 1] == (sorted@[at - 1].key@, sorted@[at - 1].value@));
            assert(upto.last() == before[at - 1]);
            assert(inserted(upto, binding) == upto.push(binding));
        } else {
            assert(inserted(upto, binding) =~= upto.push(binding));
        }
    }
    sorted.insert(at, var);
    assert(pairs(sorted@) =~= before.take(at as int).push(binding) + before.skip(at as int));
}

/// The variables of `env` in the order of substitution.
pub fn substitution_order(env: &Vec<EnvVar>) -> (ordered: Vec<EnvVar>)
    ensures
        pairs(ordered@) == by_length(pairs(env@)),
{
    let mut ordered: Vec<EnvVar> = Vec::new();
    let mut i: usize = 0;
    assert(pairs(env@).take(0) =~= Seq::<(Seq<char>, Seq<char>)>::empty());
    assert(pairs(ordered@) =~= Seq::<(Seq<char>, Seq<char>)>::empty());
    while i < env.len()
        invariant
            i <= env.len(),
            pairs(ordered@) == by_length(pairs(env@).take(i as int)),
        decreases env.len() - i,
    {
        let ghost upto = pairs(env@).take(i + 1);
        proof {
            assert(upto.drop_last() =~= pairs(env@).take(i as int));
            assert(upto.last() == (env@[i as int].key@, env@[i as int].value@));
        }
        let var = EnvVar { key: env[i].key.clone(), value: env[i].value.clone() };
        insert_by_length(&mut ordered, var);
        i += 1;
    }
    assert(pairs(env@).take(env@.len() as int) =~= pairs(env@));
    ordered
}

/// The placeholder of a key: `$` followed by the key.
pub open spec fn placeholder(key: Seq<char>) -> Seq<char> {
    seq!['$'] + key
}

/// `text` after the variables have been substituted one after the other, each
/// for all occurrences of its placeholder in what the one before it left.
pub open spec fn substituted(text: Seq<char>, vars: Seq<(Seq<char>, Seq<char>)>) -> Seq<char>
    decreases vars.len(),
{
    if vars.len() == 0 {
        text
    } else {
        substituted(replaced(text, placeholder(vars[0].0), vars[0].1), vars.skip(1))
    }
}

/// The placeholder that stands for the config root.
pub open spec fn root_placeholder() -> Seq<char> {
    "$CONFIG_ROOT_PATH"@
}

/// A raw text resolved against an environment and a config root: the
/// variables of the environment are substituted, longest key first, and then
/// `$CONFIG_ROOT_PATH` is replaced by the config root.
pub open spec fn resolved(
    raw: Seq<char>,
    env: Seq<(Seq<char>, Seq<char>)>,
    config_root: Seq<char>,
) -> Seq<char> {
    replaced(substituted(raw, by_length(env)), root_placeholder(), config_root)
}

/// Resolves the placeholders of `raw` against `env` and `config_root`.
pub fn resolve_placeholders(raw: &str, env: &Vec<EnvVar>, config_root: &str) -> (out: String)
    ensures
        out@ == resolved(raw@, pairs(env@), config_root@),
{
    let ordered = substitution_order(env);
    let mut text = chars_of(raw);
    let mut i: usize = 0;
    assert(pairs(ordered@).skip(0) =~= pairs(ordered@));
    while i < ordered.len()
        invariant
            i <= ordered.len(),
            substituted(text@, pairs(ordered@).skip(i as int)) == substituted(
                raw@,
                pairs(ordered@),
            ),
        decreases ordered.len() - i,
    {
        let ghost rest = pairs(ordered@).skip(i as int);
        let mut pattern: Vec<char> = Vec::new();
        pattern.push('$');
        let key = chars_of(ordered[i].key.as_str());
        let mut k: usize = 0;
        while k < key.len()
            invariant
                k <= key.len(),
                pattern@ == seq!['$'] + key@.take(k as int),
            decreases key.len() - k,
        {
            pattern.push(key[k]);
            k += 1;
            assert(seq!['$'] + key@.take(k - 1).push(key@[k - 1]) =~= seq!['$'] + key@.take(
                k as int,
            ));
            assert(key@.take(k - 1).push(key@[k - 1]) =~= key@.take(k as int));
        }
        let value = chars_of(ordered[i].value.as_str());
        proof {
            assert(key@.take(key@.len() as int) =~= key@);
            assert(rest[0] == (ordered@[i as int].key@, ordered@[i as int].value@));
            assert(rest.skip(1) =~= pairs(ordered@).skip(i + 1));
        }
        text = replace_all(&text, &pattern, &value);
        i += 1;
    }
    assert(pairs(ordered@).skip(ordered@.len() as int) =~= Seq::<(Seq<char>, Seq<char>)>::empty());
    let token = chars_of("$CONFIG_ROOT_PATH");
    let root = chars_of(config_root);
    let done = replace_all(&text, &token, &root);
    string_of(&done)
}

/// The order of substitution holds only variables of the environment.
pub proof fn lemma_by_length_members(env: Seq<(Seq<char>, Seq<char>)>)
    ensures
        forall|i: int| 0 <= i < by_length(env).len() ==> env.contains(#[trigger] by_length(env)[i]),
    decreases env.len(),
{
    if env.len() > 0 {
        let front = env.drop_last();
        lemma_by_length_members(front);
        lemma_members_of_inserted(by_length(front), env.last());
        let ordered = by_length(env);
        assert forall|i: int| 0 <= i < ordered.len() implies env.contains(#[trigger] ordered[i]) by {
            if ordered[i] == env.last() {
                assert(env[env.len() - 1] == ordered[i]);
            } else {
                let k = choose|k: int|
                    0 <= k < by_length(front).len() && by_length(front)[k] == ordered[i];
                let m = choose|m: int| 0 <= m < front.len() && front[m] == by_length(front)[k];
                assert(env[m] == ordered[i]);
            }
        }
    }
}

/// Where the text holds the placeholder of no variable of the environment,
/// only the config root is substituted: every `$CONFIG_ROOT_PATH` in the text
/// is replaced by the config root, and nothing else changes.
pub proof fn lemma_root_placeholder_resolves_to_root(
    raw: Seq<char>,
    env: Seq<(Seq<char>, Seq<char>)>,
    config_root: Seq<char>,
)
    requires
        forall|i: int| 0 <= i < env.len() ==> !occurs_in(raw, placeholder((#[trigger] env[i]).0)),
    ensures
        resolved(raw, env, config_root) == replaced(raw, root_placeholder(), config_root),
{
    lemma_by_length_members(env);
    let ordered = by_length(env);
    assert forall|i: int| 0 <= i < ordered.len() implies !occurs_in(
        raw,
        placeholder((#[trigger] ordered[i]).0),
    ) by {
        let k = choose|k: int| 0 <= k < env.len() && env[k] == ordered[i];
        assert(!occurs_in(raw, placeholder(env[k].0)));
    }
    lemma_substituted_absent(raw, ordered);
}

proof fn lemma_substituted_absent(text: Seq<char>, vars: Seq<(Seq<char>, Seq<char>)>)
    requires
        forall|i: int| 0 <= i < vars.len() ==> !occurs_in(text, placeholder((#[trigger] vars[i]).0)),
    ensures
        substituted(text, vars) == text,
    decreases vars.len(),
{
    if vars.len() > 0 {
        lemma_replaced_absent(text, placeholder(vars[0].0), vars[0].1);
        assert forall|i: int| 0 <= i < vars.skip(1).len() implies !occurs_in(
            text,
            placeholder((#[trigger] vars.skip(1)[i]).0),
        ) by {
            assert(vars.skip(1)[i] == vars[i + 1]);
        }
        lemma_substituted_absent(text, vars.skip(1));
    }
}

} // verus!
