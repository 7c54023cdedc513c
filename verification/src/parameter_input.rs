//! Reading a parameter value from key presses: the decisions taken on each press, for each kind
//! of parameter.
use crate::key::{typed_character, Key, Symbol};
use crate::navigation::keys_contain;
use crate::parameter::{
    CharacterParameter, ChooseParameter, Parameter, ParameterValueVariant, TextParameter,
};
use crate::shortcut_map::{
    assign_named, keeps_bindings, lemma_mnemonics_bind_given_values, name_views, named_items,
    ShortcutMap,
};
use crate::text::{
    chars_eq, chars_of, lemma_trim_idempotent, string_pop, string_push, trim, trimmed_range,
};
use vstd::prelude::*;

verus! {

/// How reading a parameter value ended.
#[derive(Debug)]
pub enum ParameterInputResult {
    /// A value was read.
    Value(ParameterValueVariant),
    /// A back key was pressed: the command is abandoned, the session goes on.
    Cancel,
    /// An exit key was pressed: the session ends.
    Exit,
}

/// How running a parameter's input program ended.
pub type ProgramResult = ParameterInputResult;

/// Reads a single character: the first press that types one.
pub fn character_input_step(
    parameter: &CharacterParameter,
    press: &Key,
    keys_exit: &[Key],
    keys_back: &[Key],
) -> (r: Option<ParameterInputResult>)
    ensures
        keys_exit@.contains(*press) ==> r matches Some(ParameterInputResult::Exit),
        !keys_exit@.contains(*press) && keys_back@.contains(*press) ==> r matches Some(
            ParameterInputResult::Cancel,
        ),
        !keys_exit@.contains(*press) && !keys_back@.contains(*press) ==> match typed_character(
            press.symbol.0,
        ) {
            Some(c) => (r matches Some(ParameterInputResult::Value(ParameterValueVariant::Character(v)))
                && v.value() == c),
            None => r is None,
        },
{
    if keys_contain(keys_exit, press) {
        return Some(ParameterInputResult::Exit);
    }
    if keys_contain(keys_back, press) {
        return Some(ParameterInputResult::Cancel);
    }
    match press.symbol.character() {
        Some(c) => match parameter.try_assign_value(c) {
            Ok(value) => Some(ParameterInputResult::Value(ParameterValueVariant::Character(value))),
            Err(_) => None,
        },
        None => None,
    }
}

/// The text typed so far for a text parameter.
pub struct TextInput {
    pub input: String,
}

impl TextInput {
    /// Nothing typed yet.
    pub fn new() -> (r: TextInput)
        ensures
            r.input@ == Seq::<char>::empty(),
    {
        TextInput { input: String::new() }
    }

    /// Handles one press. Exit keys end the session; back keys cancel while nothing is typed.
    /// A press that types a character appends it, Return submits the text, BackSpace removes the
    /// last character; other presses are ignored.
    pub fn handle_press(
        &mut self,
        parameter: &TextParameter,
        press: &Key,
        keys_exit: &[Key],
        keys_back: &[Key],
    ) -> (r: Option<ParameterInputResult>)
        ensures
            keys_exit@.contains(*press) ==> (r matches Some(ParameterInputResult::Exit)
                && final(self).input@ == old(self).input@),
            !keys_exit@.contains(*press) && keys_back@.contains(*press) && old(self).input@.len()
                == 0 ==> (r matches Some(ParameterInputResult::Cancel) && final(self).input@ == old(self).input@),
            !keys_exit@.contains(*press) && !(keys_back@.contains(*press) && old(self).input@.len()
                == 0) ==> if press.symbol.0 == 0xff0d {
                r matches Some(ParameterInputResult::Value(ParameterValueVariant::Text(v)))
                    && v.value()@ == old(self).input@
            } else if press.symbol.0 == 0xff08 {
                r is None && final(self).input@ == (if old(self).input@.len() > 0 {
                    old(self).input@.drop_last()
                } else {
                    old(self).input@
                })
            } else {
                match typed_character(press.symbol.0) {
                    Some(c) => (r is None && final(self).input@ == old(self).input@.push(c)),
                    None => r is None && final(self).input@ == old(self).input@,
                }
            },
    {
        if keys_contain(keys_exit, press) {
            return Some(ParameterInputResult::Exit);
        }
        if keys_contain(keys_back, press) && self.input.as_str().is_empty() {
            return Some(ParameterInputResult::Cancel);
        }
        match press.symbol.character() {
            Some(c) => {
                string_push(&mut self.input, c);
                None
            },
            None => {
                if press.symbol == Symbol::return_key() {
                    let value = self.input.clone();
                    match parameter.try_assign_value(value) {
                        Ok(v) => Some(ParameterInputResult::Value(ParameterValueVariant::Text(v))),
                        Err(_) => {
                            self.input = String::new();
                            None
                        },
                    }
                } else if press.symbol == Symbol::backspace() {
                    string_pop(&mut self.input);
                    None
                } else {
                    None
                }
            },
        }
    }
}

/// The pieces of `s` between the occurrences of a non-empty separator, found from left to right
/// without overlap, as `str::split` gives them.
pub open spec fn split_from(s: Seq<char>, sep: Seq<char>, start: int, i: int) -> Seq<Seq<char>>
    recommends
        sep.len() > 0,
    decreases s.len() - i,
{
    if sep.len() == 0 || i < 0 || i + sep.len() > s.len() {
        seq![s.subrange(start, s.len() as int)]
    } else if s.subrange(i, i + sep.len()) == sep {
        seq![s.subrange(start, i)] + split_from(s, sep, i + sep.len(), i + sep.len())
    } else {
        split_from(s, sep, start, i + 1)
    }
}

/// The pieces `str::split` gives: with a non-empty separator, the text between its occurrences;
/// with an empty one, an empty piece, each character, and another empty piece.
pub open spec fn split_pieces(s: Seq<char>, sep: Seq<char>) -> Seq<Seq<char>> {
    if sep.len() == 0 {
        seq![Seq::<char>::empty()] + Seq::new(s.len(), |i: int| seq![s[i]]) + seq![Seq::<char>::empty()]
    } else {
        split_from(s, sep, 0, 0)
    }
}

/// The non-empty trimmed pieces, in order.
pub open spec fn nonempty_trimmed(pieces: Seq<Seq<char>>) -> Seq<Seq<char>>
    decreases pieces.len(),
{
    if pieces.len() == 0 {
        Seq::empty()
    } else {
        let rest = nonempty_trimmed(pieces.drop_last());
        if trim(pieces.last()).len() == 0 {
            rest
        } else {
            rest.push(trim(pieces.last()))
        }
    }
}

/// The options a generating command's output holds: its pieces between separators, trimmed,
/// without the empty ones.
pub open spec fn generated_options(output: Seq<char>, sep: Seq<char>) -> Seq<Seq<char>> {
    nonempty_trimmed(split_pieces(output, sep))
}

/// The options without repetitions, each kept where it first occurs.
pub open spec fn unique_options(options: Seq<Seq<char>>) -> Seq<Seq<char>>
    decreases options.len(),
{
    if options.len() == 0 {
        Seq::empty()
    } else {
        let rest = unique_options(options.drop_last());
        if rest.contains(options.last()) {
            rest
        } else {
            rest.push(options.last())
        }
    }
}

/// Splits a generating command's output into options.
pub fn split_generated_options(output: &str, split_by: &str) -> (r: Vec<String>)
    ensures
        r@.map_values(|s: String| s@) == generated_options(output@, split_by@),
{
    let s = chars_of(output);
    let sep = chars_of(split_by);
    let ghost sv = s@;
    let ghost sepv = sep@;
    let mut r: Vec<String> = Vec::new();
    let ghost mut done: Seq<Seq<char>> = Seq::empty();
    if sep.len() == 0 {
        let ghost pieces = split_pieces(sv, sepv);
        let mut i: usize = 0;
        proof {
            assert(pieces[0] == Seq::<char>::empty());
            assert(pieces.take(1).len() == 1);
            assert(pieces.take(1).drop_last() =~= Seq::<Seq<char>>::empty());
            assert(nonempty_trimmed(Seq::<Seq<char>>::empty()) =~= Seq::<Seq<char>>::empty());
            assert(pieces.take(1).last() == Seq::<char>::empty());
            assert(trim(Seq::<char>::empty()) =~= Seq::<char>::empty());
            assert(r@.map_values(|x: String| x@) =~= nonempty_trimmed(pieces.take(1)));
        }
        while i < s.len()
            invariant
                i <= s.len(),
                sv == s@,
                sepv.len() == 0,
                pieces == split_pieces(sv, sepv),
                r@.map_values(|x: String| x@) == nonempty_trimmed(pieces.take(i + 1)),
            decreases s.len() - i,
        {
            let piece = trimmed_range(&s, i, i + 1);
            let ghost before = r@.map_values(|x: String| x@);
            proof {
                assert(pieces.take(i + 2).drop_last() =~= pieces.take(i + 1));
                assert(pieces.take(i + 2).last() == pieces[i + 1]);
                assert(pieces[i + 1] == seq![sv[i as int]]);
                assert(sv.subrange(i as int, i + 1) =~= seq![sv[i as int]]);
            }
            if !piece.as_str().is_empty() {
                r.push(piece);
                proof {
                    assert(r@.map_values(|x: String| x@) =~= before.push(piece@));
                }
            }
            i += 1;
        }
        proof {
            assert(pieces.take(i + 2).drop_last() =~= pieces.take(i + 1));
            assert(trim(pieces[i + 1]) =~= Seq::<char>::empty());
            assert(pieces.take(i + 2) =~= pieces);
        }
        return r;
    }
    let mut start: usize = 0;
    let mut i: usize = 0;
    proof {
        assert(r@.map_values(|x: String| x@) =~= Seq::<Seq<char>>::empty());
        assert(done + split_from(sv, sepv, 0, 0) =~= split_from(sv, sepv, 0, 0));
    }
    while sep.len() <= s.len() - i
        invariant
            sv == s@,
            sepv == sep@,
            sepv.len() > 0,
            start <= i,
            i <= s.len(),
            split_pieces(sv, sepv) == done + split_from(sv, sepv, start as int, i as int),
            r@.map_values(|x: String| x@) == nonempty_trimmed(done),
        decreases s.len() - i,
    {
        let mut j: usize = 0;
        while j < sep.len() && s[i + j] == sep[j]
            invariant
                j <= sep.len(),
                i + sep.len() <= s.len(),
                s.len() <= usize::MAX,
                sv == s@,
                sepv == sep@,
                forall|k: int| 0 <= k < j ==> sv[i + k] == sepv[k],
            decreases sep.len() - j,
        {
            j += 1;
        }
        if j == sep.len() {
            proof {
                assert(sv.subrange(i as int, i + sepv.len()) =~= sepv);
            }
            let piece = trimmed_range(&s, start, i);
            let ghost before = r@.map_values(|x: String| x@);
            let ghost d1 = done.push(sv.subrange(start as int, i as int));
            if !piece.as_str().is_empty() {
                r.push(piece);
                proof {
                    assert(r@.map_values(|x: String| x@) =~= before.push(piece@));
                }
            }
            proof {
                assert(d1.drop_last() =~= done);
                assert(done + split_from(sv, sepv, start as int, i as int) =~= d1 + split_from(
                    sv,
                    sepv,
                    i + sepv.len(),
                    i + sepv.len(),
                ));
                done = d1;
            }
            i = i + sep.len();
            start = i;
        } else {
            proof {
                assert(sv.subrange(i as int, i + sepv.len())[j as int] != sepv[j as int]);
            }
            i = i + 1;
        }
    }
    let piece = trimmed_range(&s, start, s.len());
    let ghost before = r@.map_values(|x: String| x@);
    let ghost d1 = done.push(sv.subrange(start as int, sv.len() as int));
    if !piece.as_str().is_empty() {
        r.push(piece);
        proof {
            assert(r@.map_values(|x: String| x@) =~= before.push(piece@));
        }
    }
    proof {
        assert(d1.drop_last() =~= done);
        assert(done + split_from(sv, sepv, start as int, i as int) =~= d1);
    }
    r
}

/// Appends the options that are not there yet, keeping the first occurrence of each.
pub fn unique_strings(options: &Vec<String>) -> (r: Vec<String>)
    ensures
        r@.map_values(|s: String| s@) == unique_options(options@.map_values(|s: String| s@)),
{
    let ghost ov = options@.map_values(|s: String| s@);
    let mut r: Vec<String> = Vec::new();
    let mut i: usize = 0;
    while i < options.len()
        invariant
            i <= options.len(),
            ov == options@.map_values(|s: String| s@),
            r@.map_values(|s: String| s@) == unique_options(ov.take(i as int)),
        decreases options.len() - i,
    {
        let ghost rv = r@.map_values(|s: String| s@);
        let mut found = false;
        let mut j: usize = 0;
        while j < r.len()
            invariant
                j <= r.len(),
                rv == r@.map_values(|s: String| s@),
                i < options.len(),
                found == (exists|k: int| 0 <= k < j && rv[k] == options@[i as int]@),
            decreases r.len() - j,
        {
            proof {
                assert(rv[j as int] == r@[j as int]@);
            }
            if r[j] == options[i] {
                found = true;
            }
            j += 1;
        }
        proof {
            assert(ov.take(i + 1).drop_last() =~= ov.take(i as int));
            assert(ov.take(i + 1).last() == ov[i as int]);
            assert(ov[i as int] == options@[i as int]@);
            if found {
                let k = choose|k: int| 0 <= k < j && rv[k] == options@[i as int]@;
                assert(rv.contains(ov[i as int]));
            } else {
                assert(!rv.contains(ov[i as int]));
            }
        }
        if !found {
            r.push(options[i].clone());
            proof {
                assert(r@.map_values(|s: String| s@) =~= rv.push(ov[i as int]));
            }
        }
        i += 1;
    }
    proof {
        assert(ov.take(i as int) =~= ov);
    }
    r
}

/// The options on offer for a choose parameter: its configured options followed by the
/// generated ones, each option once, where it first occurs.
pub open spec fn offered_options(configured: Seq<Seq<char>>, generated: Seq<Seq<char>>) -> Seq<Seq<char>> {
    unique_options(configured + generated)
}

/// The options with their positions, counted from `offset`.
pub open spec fn indexed(options: Seq<Seq<char>>, offset: nat) -> Seq<(Seq<char>, usize)> {
    Seq::new(options.len(), |i: int| (options[i], (offset + i) as usize))
}

/// The shortcuts offered for a choose parameter, each bound to the position of its option among
/// the offered ones: the configured options get their mnemonics first, as they would with no
/// generated options, then the generated options that are not configured get theirs among the
/// keys that are left.
pub open spec fn choose_shortcuts(configured: Seq<Seq<char>>, generated: Seq<Seq<char>>) -> Map<
    Key,
    usize,
> {
    let first = unique_options(configured);
    let all = offered_options(configured, generated);
    assign_named(
        assign_named(Map::empty(), indexed(first, 0)),
        indexed(all.skip(first.len() as int), first.len()),
    )
}

/// The configured options of a choose parameter, as character sequences.
pub open spec fn configured_options(parameter: &ChooseParameter) -> Seq<Seq<char>> {
    parameter.options@.map_values(|s: String| s@)
}

/// The options a generating command's output gives, none without output.
pub open spec fn generated_from(parameter: &ChooseParameter, output: Option<&str>) -> Seq<Seq<char>> {
    match output {
        Some(out) => generated_options(out@, parameter.gen_options_split_by@),
        None => Seq::empty(),
    }
}

/// The distinct options of a sequence come first among those of any longer sequence.
proof fn lemma_unique_prefix(configured: Seq<Seq<char>>, generated: Seq<Seq<char>>)
    ensures
        unique_options(configured).len() <= unique_options(configured + generated).len(),
        unique_options(configured + generated).take(unique_options(configured).len() as int)
            == unique_options(configured),
    decreases generated.len(),
{
    let u = unique_options(configured);
    if generated.len() == 0 {
        assert(configured + generated =~= configured);
        assert(u.take(u.len() as int) =~= u);
    } else {
        let all = configured + generated;
        lemma_unique_prefix(configured, generated.drop_last());
        assert(all.drop_last() =~= configured + generated.drop_last());
        let before = unique_options(all.drop_last());
        assert(before.take(u.len() as int) == u);
        if !before.contains(all.last()) {
            assert(before.push(all.last()).take(u.len() as int) =~= before.take(u.len() as int));
        }
    }
}

/// With no generated options, a choose parameter offers the shortcuts its configured options get
/// alone.
proof fn lemma_no_generated(configured: Seq<Seq<char>>)
    ensures
        choose_shortcuts(configured, Seq::empty()) == assign_named(
            Map::<Key, usize>::empty(),
            indexed(unique_options(configured), 0),
        ),
{
    let first = unique_options(configured);
    assert(configured + Seq::<Seq<char>>::empty() =~= configured);
    let rest = indexed(first.skip(first.len() as int), first.len());
    assert(rest.len() == 0);
    assert(named_items(rest).len() == 0);
}

/// Configured options keep their shortcuts whatever the generating command outputs: every
/// shortcut offered with no generated options is offered with any, for the same option.
pub proof fn lemma_configured_shortcuts_kept(configured: Seq<Seq<char>>, generated: Seq<Seq<char>>)
    requires
        offered_options(configured, generated).len() <= usize::MAX,
    ensures
        keeps_bindings(choose_shortcuts(configured, Seq::empty()), choose_shortcuts(configured, generated)),
        forall|k: Key| #[trigger] choose_shortcuts(configured, Seq::empty()).contains_key(k) ==> offered_options(
            configured,
            generated,
        )[choose_shortcuts(configured, Seq::empty())[k] as int] == offered_options(
            configured,
            Seq::empty(),
        )[choose_shortcuts(configured, Seq::empty())[k] as int],
{
    let first = unique_options(configured);
    let all = offered_options(configured, generated);
    let alone = choose_shortcuts(configured, Seq::empty());
    let m1 = assign_named(Map::<Key, usize>::empty(), indexed(first, 0));
    lemma_no_generated(configured);
    lemma_mnemonics_bind_given_values(m1, indexed(all.skip(first.len() as int), first.len()));
    lemma_mnemonics_bind_given_values(Map::<Key, usize>::empty(), indexed(first, 0));
    lemma_unique_prefix(configured, generated);
    lemma_unique_prefix(configured, Seq::empty());
    assert(configured + Seq::<Seq<char>>::empty() =~= configured);
    assert forall|k: Key| #[trigger] alone.contains_key(k) implies all[alone[k] as int]
        == offered_options(configured, Seq::empty())[alone[k] as int] by {
        let i = choose|i: int| 0 <= i < indexed(first, 0).len() && (#[trigger] indexed(first, 0)[i]).1
            == alone[k];
        assert(i < first.len());
        assert(indexed(first, 0)[i].1 == i as usize);
        assert(alone[k] as int == i);
        assert(all.take(first.len() as int)[i] == all[i]);
    }
}

/// The shortcuts offered while a choose parameter is read, each bound to the position of its
/// option among the offered options.
pub struct ChooseInput {
    pub options: Vec<String>,
    pub shortcuts: ShortcutMap<usize>,
}

impl ChooseInput {
    /// The shortcuts are well formed and every one leads to an offered option.
    pub open spec fn wf(self) -> bool {
        &&& self.shortcuts.wf()
        &&& forall|k: Key| #[trigger] self.shortcuts@.contains_key(k) ==> self.shortcuts@[k]
            < self.options@.len()
    }

    /// Offers the parameter's configured options, then those split from the generating command's
    /// output (`None` when the command did not run or failed), each option once. Configured
    /// options get their mnemonic shortcuts first, so they keep the shortcuts they have with no
    /// generated options whatever the command outputs.
    pub fn new(parameter: &ChooseParameter, generated_output: Option<&str>) -> (r: ChooseInput)
        ensures
            r.wf(),
            r.options@.map_values(|s: String| s@) == offered_options(
                configured_options(parameter),
                generated_from(parameter, generated_output),
            ),
            r.shortcuts@ == choose_shortcuts(
                configured_options(parameter),
                generated_from(parameter, generated_output),
            ),
    {
        let generated: Vec<String> = match generated_output {
            Some(out) => split_generated_options(out, parameter.gen_options_split_by.as_str()),
            None => Vec::new(),
        };
        let ghost conf = configured_options(parameter);
        let ghost gen = generated_from(parameter, generated_output);
        let mut all: Vec<String> = Vec::new();
        let mut i: usize = 0;
        while i < parameter.options.len()
            invariant
                i <= parameter.options.len(),
                conf == configured_options(parameter),
                all@.map_values(|s: String| s@) == conf.take(i as int),
            decreases parameter.options.len() - i,
        {
            let ghost before = all@.map_values(|s: String| s@);
            all.push(parameter.options[i].clone());
            proof {
                assert(all@.map_values(|s: String| s@) =~= before.push(conf[i as int]));
                assert(conf.take(i + 1) =~= conf.take(i as int).push(conf[i as int]));
            }
            i += 1;
        }
        let mut k: usize = 0;
        proof {
            assert(conf.take(i as int) =~= conf);
        }
        while k < generated.len()
            invariant
                k <= generated.len(),
                gen == generated@.map_values(|s: String| s@),
                all@.map_values(|s: String| s@) == conf + gen.take(k as int),
            decreases generated.len() - k,
        {
            let ghost before = all@.map_values(|s: String| s@);
            all.push(generated[k].clone());
            proof {
                assert(all@.map_values(|s: String| s@) =~= before.push(gen[k as int]));
                assert(gen.take(k + 1) =~= gen.take(k as int).push(gen[k as int]));
                assert(conf + gen.take(k + 1) =~= (conf + gen.take(k as int)).push(gen[k as int]));
            }
            k += 1;
        }
        proof {
            assert(gen.take(k as int) =~= gen);
        }
        let options = unique_strings(&all);
        let firsts = unique_strings(&parameter.options);
        let ghost first = unique_options(conf);
        let ghost offered = offered_options(conf, gen);
        proof {
            lemma_unique_prefix(conf, gen);
            assert(firsts@.map_values(|s: String| s@) == first);
            assert(options@.map_values(|s: String| s@) == offered);
        }
        let n1 = firsts.len();
        let mut names1: Vec<(&str, usize)> = Vec::new();
        let mut j: usize = 0;
        while j < n1
            invariant
                j <= n1,
                n1 == firsts@.len(),
                firsts@.map_values(|s: String| s@) == first,
                name_views(names1@) == indexed(first, 0).take(j as int),
            decreases n1 - j,
        {
            let ghost before = name_views(names1@);
            names1.push((firsts[j].as_str(), j));
            proof {
                assert(firsts@[j as int]@ == first[j as int]);
                assert(name_views(names1@) =~= before.push((first[j as int], j)));
                assert(indexed(first, 0).take(j + 1) =~= indexed(first, 0).take(j as int).push(
                    (first[j as int], j),
                ));
            }
            j += 1;
        }
        proof {
            assert(indexed(first, 0).take(j as int) =~= indexed(first, 0));
        }
        let mut names2: Vec<(&str, usize)> = Vec::new();
        let ghost later = indexed(offered.skip(first.len() as int), first.len());
        let mut j: usize = n1;
        while j < options.len()
            invariant
                n1 <= j <= options@.len(),
                n1 == first.len(),
                options@.map_values(|s: String| s@) == offered,
                first.len() <= offered.len(),
                later == indexed(offered.skip(first.len() as int), first.len()),
                name_views(names2@) == later.take(j - n1),
            decreases options.len() - j,
        {
            let ghost before = name_views(names2@);
            names2.push((options[j].as_str(), j));
            proof {
                assert(options@[j as int]@ == offered[j as int]);
                assert(later[j - n1] == (offered[j as int], j));
                assert(name_views(names2@) =~= before.push((offered[j as int], j)));
                assert(later.take(j + 1 - n1) =~= later.take(j - n1).push(later[j - n1]));
            }
            j += 1;
        }
        proof {
            assert(later.take(j - n1) =~= later);
        }
        let mut shortcuts: ShortcutMap<usize> = ShortcutMap::new();
        let ghost m0 = shortcuts@;
        shortcuts.auto_assign_mnemonics(names1);
        let ghost m1 = shortcuts@;
        shortcuts.auto_assign_mnemonics(names2);
        proof {
            assert(m0 =~= Map::<Key, usize>::empty());
            lemma_mnemonics_bind_given_values(m0, indexed(first, 0));
            lemma_mnemonics_bind_given_values(m1, later);
            assert forall|key: Key| #[trigger] shortcuts@.contains_key(key) implies shortcuts@[key]
                < options@.len() by {
                if m1.contains_key(key) && shortcuts@[key] == m1[key] {
                    let i = choose|i: int| 0 <= i < indexed(first, 0).len() && (#[trigger] indexed(
                        first,
                        0,
                    )[i]).1 == m1[key];
                    assert(m1[key] as int == i);
                } else {
                    let i = choose|i: int| 0 <= i < later.len() && (#[trigger] later[i]).1
                        == shortcuts@[key];
                    assert(shortcuts@[key] as int == first.len() + i);
                }
            }
        }
        ChooseInput { options, shortcuts }
    }

    /// The offered options with their shortcuts, in key order.
    pub fn view_options(&self) -> (r: Vec<(Key, String)>)
        requires
            self.wf(),
        ensures
            r@.len() == self.shortcuts.entries@.len(),
            forall|i: int|
                0 <= i < r@.len() ==> (#[trigger] r@[i]).0 == self.shortcuts.entries@[i].0
                    && r@[i].1 == self.options@[self.shortcuts.entries@[i].1 as int],
    {
        let mut r: Vec<(Key, String)> = Vec::new();
        let mut i: usize = 0;
        while i < self.shortcuts.entries.len()
            invariant
                self.wf(),
                i <= self.shortcuts.entries@.len(),
                r@.len() == i,
                forall|j: int|
                    0 <= j < i ==> (#[trigger] r@[j]).0 == self.shortcuts.entries@[j].0 && r@[j].1
                        == self.options@[self.shortcuts.entries@[j].1 as int],
            decreases self.shortcuts.entries@.len() - i,
        {
            let (key, index) = &self.shortcuts.entries[i];
            proof {
                self.shortcuts.lemma_pair_in_view(i as int);
            }
            r.push((*key, self.options[*index].clone()));
            i += 1;
        }
        r
    }

    /// Handles one press. Exit keys end the session and back keys cancel; a press bound to an
    /// option chooses it if the parameter accepts it, and anything else is ignored.
    pub fn handle_press(
        &self,
        parameter: &ChooseParameter,
        press: &Key,
        keys_exit: &[Key],
        keys_back: &[Key],
    ) -> (r: Option<ParameterInputResult>)
        requires
            self.wf(),
        ensures
            keys_exit@.contains(*press) ==> r matches Some(ParameterInputResult::Exit),
            !keys_exit@.contains(*press) && keys_back@.contains(*press) ==> r matches Some(
                ParameterInputResult::Cancel,
            ),
            !keys_exit@.contains(*press) && !keys_back@.contains(*press) ==> (
            if self.shortcuts@.contains_key(*press) && parameter.accepts(
                self.options@[self.shortcuts@[*press] as int],
            ) {
                r matches Some(ParameterInputResult::Value(ParameterValueVariant::Choose(v)))
                    && v.value() == self.options@[self.shortcuts@[*press] as int]
            } else {
                r is None
            }),
    {
        if keys_contain(keys_exit, press) {
            return Some(ParameterInputResult::Exit);
        }
        if keys_contain(keys_back, press) {
            return Some(ParameterInputResult::Cancel);
        }
        match self.shortcuts.get(press) {
            Some(index) => match parameter.try_assign_value(self.options[*index].clone()) {
                Ok(value) => Some(ParameterInputResult::Value(ParameterValueVariant::Choose(value))),
                Err(_) => None,
            },
            None => None,
        }
    }
}

/// The options kept from pieces are non-empty and already trimmed.
proof fn lemma_nonempty_trimmed_clean(pieces: Seq<Seq<char>>)
    ensures
        forall|i: int|
            0 <= i < nonempty_trimmed(pieces).len() ==> (#[trigger] nonempty_trimmed(pieces)[i]).len()
                > 0 && trim(nonempty_trimmed(pieces)[i]) == nonempty_trimmed(pieces)[i],
    decreases pieces.len(),
{
    if pieces.len() > 0 {
        let rest = nonempty_trimmed(pieces.drop_last());
        lemma_nonempty_trimmed_clean(pieces.drop_last());
        lemma_trim_idempotent(pieces.last());
        let all = nonempty_trimmed(pieces);
        assert forall|i: int| 0 <= i < all.len() implies (#[trigger] all[i]).len() > 0 && trim(all[i])
            == all[i] by {
            if i < rest.len() {
                assert(all[i] == rest[i]);
            }
        }
    }
}

/// Every option a generating command's output gives is non-empty and trimmed.
pub proof fn lemma_generated_options_clean(output: Seq<char>, sep: Seq<char>)
    ensures
        forall|i: int|
            0 <= i < generated_options(output, sep).len() ==> (#[trigger] generated_options(
                output,
                sep,
            )[i]).len() > 0 && trim(generated_options(output, sep)[i]) == generated_options(
                output,
                sep,
            )[i],
{
    lemma_nonempty_trimmed_clean(split_pieces(output, sep));
}

/// The options on offer hold each option once, and exactly the options given.
pub proof fn lemma_unique_options(options: Seq<Seq<char>>)
    ensures
        unique_options(options).no_duplicates(),
        forall|x: Seq<char>| unique_options(options).contains(x) <==> options.contains(x),
    decreases options.len(),
{
    if options.len() > 0 {
        let rest = options.drop_last();
        lemma_unique_options(rest);
        let u = unique_options(rest);
        let l = options.last();
        assert forall|x: Seq<char>| options.contains(x) <==> (rest.contains(x) || x == l) by {
            if options.contains(x) {
                let j = choose|j: int| 0 <= j < options.len() && options[j] == x;
                if j < rest.len() {
                    assert(rest[j] == x);
                }
            }
            if rest.contains(x) {
                let j = choose|j: int| 0 <= j < rest.len() && rest[j] == x;
                assert(options[j] == x);
            }
            if x == l {
                assert(options[options.len() - 1] == x);
            }
        }
        if !u.contains(l) {
            assert forall|x: Seq<char>| u.push(l).contains(x) <==> (u.contains(x) || x == l) by {
                if u.push(l).contains(x) {
                    let j = choose|j: int| 0 <= j < u.push(l).len() && u.push(l)[j] == x;
                    if j < u.len() {
                        assert(u[j] == x);
                    }
                }
                if u.contains(x) {
                    let j = choose|j: int| 0 <= j < u.len() && u[j] == x;
                    assert(u.push(l)[j] == x);
                }
                if x == l {
                    assert(u.push(l)[u.len() as int] == x);
                }
            }
        }
        if !u.contains(options.last()) {
            assert forall|a: int, b: int|
                0 <= a < b < u.push(options.last()).len() implies u.push(options.last())[a]
                != u.push(options.last())[b] by {
                if b == u.len() {
                    assert(u[a] == u.push(options.last())[a]);
                }
            }
        }
    }
}

/// The pieces joined back together with the separator between each two of them.
pub open spec fn joined(pieces: Seq<Seq<char>>, sep: Seq<char>) -> Seq<char>
    decreases pieces.len(),
{
    if pieces.len() == 0 {
        Seq::empty()
    } else if pieces.len() == 1 {
        pieces[0]
    } else {
        pieces[0] + sep + joined(pieces.drop_first(), sep)
    }
}

/// Whether `sep` occurs in `s` at position `p`.
pub open spec fn occurs_at(s: Seq<char>, sep: Seq<char>, p: int) -> bool {
    0 <= p && p + sep.len() <= s.len() && s.subrange(p, p + sep.len()) == sep
}

/// A piece put in front of other pieces joins to the piece, the separator and the rest joined.
proof fn lemma_joined_front(a: Seq<char>, rest: Seq<Seq<char>>, sep: Seq<char>)
    requires
        rest.len() >= 1,
    ensures
        joined(seq![a] + rest, sep) == a + sep + joined(rest, sep),
{
    let ps = seq![a] + rest;
    assert(ps.drop_first() =~= rest);
    assert(ps[0] == a);
}

/// The pieces from `i` on, with no occurrence of the separator between `start` and `i`, join back
/// to the text from `start` on, and none of them holds the separator.
proof fn lemma_split_from_rejoins(s: Seq<char>, sep: Seq<char>, start: int, i: int)
    requires
        sep.len() > 0,
        0 <= start <= i <= s.len(),
        forall|p: int| start <= p < i ==> !#[trigger] occurs_at(s, sep, p),
    ensures
        split_from(s, sep, start, i).len() >= 1,
        joined(split_from(s, sep, start, i), sep) == s.subrange(start, s.len() as int),
        forall|k: int, p: int|
            0 <= k < split_from(s, sep, start, i).len() ==> !#[trigger] occurs_at(
                split_from(s, sep, start, i)[k],
                sep,
                p,
            ),
    decreases s.len() - i,
{
    let ps = split_from(s, sep, start, i);
    if i + sep.len() > s.len() {
        let piece = s.subrange(start, s.len() as int);
        assert(ps == seq![piece]);
        assert forall|k: int, p: int| 0 <= k < ps.len() implies !#[trigger] occurs_at(ps[k], sep, p) by {
            if occurs_at(piece, sep, p) {
                assert(piece.subrange(p, p + sep.len()) =~= s.subrange(start + p, start + p + sep.len()));
                assert(occurs_at(s, sep, start + p));
            }
        }
    } else if s.subrange(i, i + sep.len()) == sep {
        let piece = s.subrange(start, i);
        let rest = split_from(s, sep, i + sep.len(), i + sep.len());
        assert(ps == seq![piece] + rest);
        lemma_split_from_rejoins(s, sep, i + sep.len(), i + sep.len());
        lemma_joined_front(piece, rest, sep);
        assert(piece + sep + s.subrange(i + sep.len(), s.len() as int) =~= s.subrange(start, s.len() as int));
        assert forall|k: int, p: int| 0 <= k < ps.len() implies !#[trigger] occurs_at(ps[k], sep, p) by {
            if k == 0 {
                assert(ps[0] == piece);
                if occurs_at(piece, sep, p) {
                    assert(piece.subrange(p, p + sep.len()) =~= s.subrange(start + p, start + p + sep.len()));
                    assert(occurs_at(s, sep, start + p));
                }
            } else {
                assert(ps[k] == rest[k - 1]);
            }
        }
    } else {
        assert(!occurs_at(s, sep, i));
        lemma_split_from_rejoins(s, sep, start, i + 1);
    }
}

/// The pieces of one character each, then an empty one, join without a separator back to the
/// text from `k` on.
proof fn lemma_chars_rejoin(s: Seq<char>, k: int)
    requires
        0 <= k <= s.len(),
    ensures
        joined(Seq::new((s.len() - k) as nat, |i: int| seq![s[k + i]]).push(Seq::empty()), Seq::empty())
            == s.subrange(k, s.len() as int),
    decreases s.len() - k,
{
    let ps = Seq::new((s.len() - k) as nat, |i: int| seq![s[k + i]]).push(Seq::<char>::empty());
    if k == s.len() {
        assert(ps.len() == 1);
        assert(s.subrange(k, s.len() as int) =~= Seq::<char>::empty());
    } else {
        lemma_chars_rejoin(s, k + 1);
        let rest = Seq::new((s.len() - (k + 1)) as nat, |i: int| seq![s[k + 1 + i]]).push(Seq::<char>::empty());
        assert(ps =~= seq![seq![s[k]]] + rest);
        lemma_joined_front(seq![s[k]], rest, Seq::empty());
        assert(seq![s[k]] + Seq::<char>::empty() + s.subrange(k + 1, s.len() as int) =~= s.subrange(k, s.len() as int));
    }
}

/// The pieces a generating command's output is split into are those of `str::split`: joined back
/// with the separator between each two they give the output itself, so a piece is never cut
/// anywhere but at the separator, and with a non-empty separator no piece holds it. The options
/// are these pieces, trimmed, without the empty ones.
pub proof fn lemma_split_pieces_rejoin(output: Seq<char>, sep: Seq<char>)
    ensures
        split_pieces(output, sep).len() >= 1,
        joined(split_pieces(output, sep), sep) == output,
        sep.len() > 0 ==> forall|k: int, p: int|
            0 <= k < split_pieces(output, sep).len() ==> !#[trigger] occurs_at(
                split_pieces(output, sep)[k],
                sep,
                p,
            ),
        generated_options(output, sep) == nonempty_trimmed(split_pieces(output, sep)),
{
    if sep.len() > 0 {
        lemma_split_from_rejoins(output, sep, 0, 0);
        assert(output.subrange(0, output.len() as int) =~= output);
    } else {
        let chars = Seq::new(output.len(), |i: int| seq![output[i]]);
        let tail = Seq::new((output.len() - 0) as nat, |i: int| seq![output[0 + i]]).push(Seq::<char>::empty());
        lemma_chars_rejoin(output, 0);
        assert(split_pieces(output, sep) =~= seq![Seq::<char>::empty()] + tail);
        lemma_joined_front(Seq::empty(), tail, sep);
        assert(sep =~= Seq::<char>::empty());
        assert(Seq::<char>::empty() + Seq::<char>::empty() + output.subrange(0, output.len() as int) =~= output);
    }
}

} // verus!
