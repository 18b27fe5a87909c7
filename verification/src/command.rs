//! The letter-keyed command registry: an interface for commands, a basic
//! concrete command, and an ordered command list with lookup by address.

use vstd::prelude::*;
use vstd::relations::sorted_by;
use vstd::relations::total_ordering;
use vstd::seq_lib::lemma_sorted_unique;

verus! {

/// The mathematical content of a command: its address character and the
/// characters of its description.
#[verifier::ext_equal]
pub struct CmdModel {
    pub addr: char,
    pub info: Seq<char>,
}

/// The display form of a command: `"<address>: <info>"`.
pub open spec fn display_of(m: CmdModel) -> Seq<char> {
    Seq::new(
        3 + m.info.len(),
        |i: int|
            if i == 0 {
                m.addr
            } else if i == 1 {
                ':'
            } else if i == 2 {
                ' '
            } else {
                m.info[i - 3]
            },
    )
}

/// A command that can be dispatched by a single address character.
///
/// Implementors choose the total order used for registry storage; the
/// three proof obligations make it a genuine total order on command
/// models, which is what makes registry construction deterministic.
pub trait Command: Sized {
    /// The model of this command: its address and description.
    spec fn model(&self) -> CmdModel;

    /// The storage order, as a relation on command models.
    spec fn le_model(a: CmdModel, b: CmdModel) -> bool;

    /// The storage order is a total order on models.
    proof fn lemma_le_total_ordering()
        ensures
            total_ordering(|a: CmdModel, b: CmdModel| Self::le_model(a, b)),
    ;

    /// The address character used to select this command.
    fn get_char(&self) -> (c: char)
        ensures
            c == self.model().addr,
    ;

    /// The human-readable description of this command.
    fn get_info(&self) -> (s: &str)
        ensures
            s@ == self.model().info,
    ;

    /// Decides the storage order between two commands.
    fn le(&self, other: &Self) -> (r: bool)
        ensures
            r == Self::le_model(self.model(), other.model()),
    ;

    /// Duplicates this command; selection protocols hand the duplicate to
    /// the caller.
    fn dup(&self) -> (r: Self)
        ensures
            r.model() == self.model(),
    ;

    /// Renders this command as `"<address>: <info>"`.
    fn display_as_cmd(&self) -> (s: String)
        ensures
            s@ == display_of(self.model()),
    ;
}

/// Lexicographic order on character sequences, by code point.
pub open spec fn lex_le(a: Seq<char>, b: Seq<char>) -> bool
    decreases a.len(),
{
    if a.len() == 0 {
        true
    } else if b.len() == 0 {
        false
    } else if (a[0] as u32) < (b[0] as u32) {
        true
    } else if (b[0] as u32) < (a[0] as u32) {
        false
    } else {
        lex_le(a.drop_first(), b.drop_first())
    }
}

/// Totality of the lexicographic order.
pub proof fn lemma_lex_le_total(a: Seq<char>, b: Seq<char>)
    ensures
        lex_le(a, b) || lex_le(b, a),
    decreases a.len(),
{
    if a.len() > 0 && b.len() > 0 && a[0] as u32 == b[0] as u32 {
        lemma_lex_le_total(a.drop_first(), b.drop_first());
    }
}

/// Antisymmetry of the lexicographic order.
pub proof fn lemma_lex_le_antisym(a: Seq<char>, b: Seq<char>)
    requires
        lex_le(a, b),
        lex_le(b, a),
    ensures
        a == b,
    decreases a.len(),
{
    if a.len() == 0 {
        assert(b.len() == 0);
        assert(a =~= b);
    } else {
        assert(b.len() > 0);
        assert(a[0] as u32 == b[0] as u32);
        vstd::utf8::char_u32_cast(a[0], a[0] as u32);
        vstd::utf8::char_u32_cast(b[0], b[0] as u32);
        assert(a[0] == b[0]);
        lemma_lex_le_antisym(a.drop_first(), b.drop_first());
        assert(a =~= seq![a[0]] + a.drop_first());
        assert(b =~= seq![b[0]] + b.drop_first());
    }
}

/// Transitivity of the lexicographic order.
pub proof fn lemma_lex_le_trans(a: Seq<char>, b: Seq<char>, c: Seq<char>)
    requires
        lex_le(a, b),
        lex_le(b, c),
    ensures
        lex_le(a, c),
    decreases a.len(),
{
    if a.len() > 0 && b.len() > 0 && c.len() > 0 && a[0] as u32 == b[0] as u32 && b[0] as u32 == c[
        0] as u32 {
        lemma_lex_le_trans(a.drop_first(), b.drop_first(), c.drop_first());
    }
}

/// A ready-made command: an address character and a description string.
pub struct BasicCmd {
    pub addr: char,
    pub info: String,
}

/// Compares two string slices in lexicographic code point order.
fn str_lex_le(x: &str, y: &str) -> (r: bool)
    ensures
        r == lex_le(x@, y@),
    decreases x@.len(),
{
    let xn = x.unicode_len();
    let yn = y.unicode_len();
    if xn == 0 {
        true
    } else if yn == 0 {
        false
    } else {
        let cx = x.get_char(0);
        let cy = y.get_char(0);
        if (cx as u32) < (cy as u32) {
            true
        } else if (cy as u32) < (cx as u32) {
            false
        } else {
            let xr = x.substring_char(1, xn);
            let yr = y.substring_char(1, yn);
            proof {
                assert(xr@ =~= x@.drop_first());
                assert(yr@ =~= y@.drop_first());
            }
            str_lex_le(xr, yr)
        }
    }
}

impl Command for BasicCmd {
    open spec fn model(&self) -> CmdModel {
        CmdModel { addr: self.addr, info: self.info@ }
    }

    open spec fn le_model(a: CmdModel, b: CmdModel) -> bool {
        (a.addr as u32) < (b.addr as u32) || (a.addr == b.addr && lex_le(a.info, b.info))
    }

    proof fn lemma_le_total_ordering() {
        let r = |a: CmdModel, b: CmdModel| Self::le_model(a, b);
        assert forall|a: CmdModel| #[trigger] r(a, a) by {
            lemma_lex_le_total(a.info, a.info);
        }
        assert forall|a: CmdModel, b: CmdModel| #[trigger] r(a, b) && #[trigger] r(b, a) implies a
            == b by {
            if a.addr as u32 == b.addr as u32 {
                vstd::utf8::char_u32_cast(a.addr, a.addr as u32);
                vstd::utf8::char_u32_cast(b.addr, b.addr as u32);
                assert(a.addr == b.addr);
                lemma_lex_le_antisym(a.info, b.info);
                assert(a =~= b);
            }
        }
        assert forall|a: CmdModel, b: CmdModel, c: CmdModel|
            #[trigger] r(a, b) && #[trigger] r(b, c) implies r(a, c) by {
            if a.addr as u32 == b.addr as u32 && b.addr as u32 == c.addr as u32 {
                lemma_lex_le_trans(a.info, b.info, c.info);
            }
        }
        assert forall|a: CmdModel, b: CmdModel| #[trigger] r(a, b) || #[trigger] r(b, a) by {
            if a.addr as u32 == b.addr as u32 {
                vstd::utf8::char_u32_cast(a.addr, a.addr as u32);
                vstd::utf8::char_u32_cast(b.addr, b.addr as u32);
                assert(a.addr == b.addr);
                lemma_lex_le_total(a.info, b.info);
            }
        }
    }

    fn get_char(&self) -> (c: char) {
        self.addr
    }

    fn get_info(&self) -> (s: &str) {
        self.info.as_str()
    }

    fn le(&self, other: &Self) -> (r: bool) {
        let a = self.addr as u32;
        let b = other.addr as u32;
        if a < b {
            true
        } else if b < a {
            false
        } else {
            proof {
                vstd::utf8::char_u32_cast(self.addr, a);
                vstd::utf8::char_u32_cast(other.addr, b);
            }
            str_lex_le(self.info.as_str(), other.info.as_str())
        }
    }

    fn dup(&self) -> (r: Self) {
        BasicCmd { addr: self.addr, info: self.info.clone() }
    }

    fn display_as_cmd(&self) -> (s: String) {
        let mut s = String::new();
        s.push(self.get_char());
        s.push(':');
        s.push(' ');
        s.append(self.get_info());
        proof {
            assert(s@ =~= display_of(self.model()));
        }
        s
    }
}


/// The models of a sequence of commands, in order.
pub open spec fn models_of<C: Command>(s: Seq<C>) -> Seq<CmdModel> {
    Seq::new(s.len(), |i: int| s[i].model())
}

/// `ms` is sorted by the storage order of `C`.
pub open spec fn sorted_models<C: Command>(ms: Seq<CmdModel>) -> bool {
    sorted_by(ms, |a: CmdModel, b: CmdModel| C::le_model(a, b))
}

/// The first command model whose address equals `a`, scanning the
/// sequence left to right.
pub open spec fn lookup(ms: Seq<CmdModel>, a: char) -> Option<CmdModel>
    decreases ms.len(),
{
    if ms.len() == 0 {
        None
    } else if ms[0].addr == a {
        Some(ms[0])
    } else {
        lookup(ms.drop_first(), a)
    }
}

/// Removing the models of a removed command: the model sequence of
/// `s.remove(i)` is the model sequence of `s` with index `i` removed.
proof fn lemma_models_remove<C: Command>(s: Seq<C>, i: int)
    requires
        0 <= i < s.len(),
    ensures
        models_of(s.remove(i)) =~= models_of(s).remove(i),
{
}

/// The model sequence of `s.insert(j, x)` is the model sequence of `s`
/// with the model of `x` inserted at `j`.
proof fn lemma_models_insert<C: Command>(s: Seq<C>, j: int, x: C)
    requires
        0 <= j <= s.len(),
    ensures
        models_of(s.insert(j, x)) =~= models_of(s).insert(j, x.model()),
{
    s.insert_ensures(j, x);
    models_of(s).insert_ensures(j, x.model());
}

/// Inserting into a sequence adds one occurrence to its multiset.
proof fn lemma_insert_to_multiset<A>(s: Seq<A>, j: int, x: A)
    requires
        0 <= j <= s.len(),
    ensures
        s.insert(j, x).to_multiset() =~= s.to_multiset().insert(x),
{
    broadcast use vstd::seq_lib::group_to_multiset_ensures;
    broadcast use vstd::multiset::group_multiset_axioms;

    let t = s.insert(j, x);
    s.insert_ensures(j, x);
    assert(t.remove(j) =~= s);
    assert(t[j] == x);
    assert(t.contains(x));
    assert(t.remove(j).to_multiset() =~= t.to_multiset().remove(t[j]));
    assert(s.to_multiset() =~= t.to_multiset().remove(x));
    assert forall|y: A| t.to_multiset().count(y) == s.to_multiset().insert(x).count(y) by {
        if y == x {
            assert(t.to_multiset().count(x) > 0);
        }
    }
    assert(t.to_multiset() =~= s.to_multiset().insert(x));
}

/// Inserting an element at the position found by a linear scan keeps the
/// model sequence sorted.
proof fn lemma_sorted_insert<C: Command>(ms: Seq<CmdModel>, pos: int, m: CmdModel)
    requires
        total_ordering(|a: CmdModel, b: CmdModel| C::le_model(a, b)),
        sorted_models::<C>(ms),
        0 <= pos <= ms.len(),
        forall|k: int| 0 <= k < pos ==> C::le_model(#[trigger] ms[k], m),
        pos < ms.len() ==> C::le_model(m, ms[pos]),
    ensures
        sorted_models::<C>(ms.insert(pos, m)),
{
    let leq = |a: CmdModel, b: CmdModel| C::le_model(a, b);
    let t = ms.insert(pos, m);
    ms.insert_ensures(pos, m);
    assert forall|i: int, j: int| 0 <= i < j < t.len() implies #[trigger] leq(t[i], t[j]) by {
        if j < pos {
            assert(leq(ms[i], ms[j]));
        } else if i < pos && j == pos {
            assert(leq(ms[i], m));
        } else if i < pos && j > pos {
            assert(t[j] == ms[j - 1]);
            assert(leq(ms[i], ms[j - 1]));
        } else if i == pos && j > pos {
            assert(t[j] == ms[j - 1]);
            assert(leq(m, ms[pos]));
            if pos < j - 1 {
                assert(leq(ms[pos], ms[j - 1]));
            }
        } else {
            assert(t[i] == ms[i - 1] && t[j] == ms[j - 1]);
            assert(leq(ms[i - 1], ms[j - 1]));
        }
    }
}

/// An ordered command registry: a sequence of commands, sorted once at
/// construction by the commands' storage order, with lookup by address.
pub struct CmdList<C: Command> {
    cmds: Vec<C>,
}

impl<C: Command> View for CmdList<C> {
    type V = Seq<C>;

    closed spec fn view(&self) -> Seq<C> {
        self.cmds@
    }
}

impl<C: Command> CmdList<C> {
    /// Builds a registry from an unordered list of commands: sorts them
    /// by their storage order.  The result is fully determined by the
    /// multiset of command models handed in (see
    /// [`lemma_build_deterministic`]).
    pub fn new(cmds: Vec<C>) -> (r: CmdList<C>)
        ensures
            sorted_models::<C>(models_of(r@)),
            models_of(r@).to_multiset() == models_of(cmds@).to_multiset(),
    {
        let ghost orig = models_of(cmds@);
        let mut rest = cmds;
        let mut out: Vec<C> = Vec::new();
        proof {
            C::lemma_le_total_ordering();
            broadcast use vstd::seq_lib::group_to_multiset_ensures;
            broadcast use vstd::multiset::group_multiset_axioms;

            assert(models_of(out@) =~= Seq::<CmdModel>::empty());
            assert(models_of(out@).to_multiset().add(models_of(rest@).to_multiset())
                =~= orig.to_multiset());
        }
        while rest.len() > 0
            invariant
                total_ordering(|a: CmdModel, b: CmdModel| C::le_model(a, b)),
                sorted_models::<C>(models_of(out@)),
                models_of(out@).to_multiset().add(models_of(rest@).to_multiset())
                    == orig.to_multiset(),
            decreases rest@.len(),
        {
            let ghost rest0 = rest@;
            let ghost out0 = out@;
            let x = rest.remove(0);
            let mut pos: usize = 0;
            while pos < out.len() && out[pos].le(&x)
                invariant
                    pos <= out@.len(),
                    out@ == out0,
                    forall|k: int|
                        0 <= k < pos ==> C::le_model(#[trigger] models_of(out@)[k], x.model()),
                decreases out@.len() - pos,
            {
                pos += 1;
            }
            proof {
                broadcast use vstd::seq_lib::group_to_multiset_ensures;
                broadcast use vstd::multiset::group_multiset_axioms;

                let leq = |a: CmdModel, b: CmdModel| C::le_model(a, b);
                if pos < out@.len() {
                    assert(!C::le_model(models_of(out@)[pos as int], x.model()));
                    assert(leq(models_of(out@)[pos as int], x.model()) || leq(
                        x.model(),
                        models_of(out@)[pos as int],
                    ));
                    assert(C::le_model(x.model(), models_of(out@)[pos as int]));
                }
                lemma_sorted_insert::<C>(models_of(out@), pos as int, x.model());
                lemma_models_insert::<C>(out@, pos as int, x);
                lemma_insert_to_multiset(models_of(out@), pos as int, x.model());
                lemma_models_remove::<C>(rest0, 0);
                assert(rest0.remove(0) =~= rest@);
                assert(models_of(rest0).remove(0).to_multiset() =~= models_of(rest0)
                    .to_multiset()
                    .remove(models_of(rest0)[0]));
                assert(models_of(rest0)[0] == x.model());
            }
            out.insert(pos, x);
            proof {
                broadcast use vstd::multiset::group_multiset_axioms;

                assert(models_of(out@) =~= models_of(out0).insert(pos as int, x.model()));
                assert(models_of(out@).to_multiset() =~= models_of(out0).to_multiset().insert(
                    x.model(),
                ));
                assert(models_of(out@).to_multiset().add(models_of(rest@).to_multiset()) =~= orig
                    .to_multiset()) by {
                    assert(models_of(rest0).to_multiset() =~= models_of(rest@)
                        .to_multiset()
                        .insert(x.model()));
                    assert forall|y: CmdModel|
                        models_of(out@).to_multiset().add(models_of(rest@).to_multiset()).count(y)
                            == orig.to_multiset().count(y) by {
                        assert(models_of(out0).to_multiset().add(
                            models_of(rest0).to_multiset(),
                        ).count(y) == orig.to_multiset().count(y));
                    }
                }
            }
        }
        proof {
            broadcast use vstd::seq_lib::group_to_multiset_ensures;
            broadcast use vstd::multiset::group_multiset_axioms;

            assert(models_of(rest@) =~= Seq::<CmdModel>::empty());
            assert(models_of(out@).to_multiset() =~= orig.to_multiset());
        }
        CmdList { cmds: out }
    }

    /// Looks up a command by its address character: a linear scan that
    /// returns the first command whose address equals `addr`, or `None`.
    /// The comparison is case-sensitive; callers normalize case first.
    pub fn get(&self, addr: char) -> (r: Option<&C>)
        ensures
            match r {
                Some(c) => lookup(models_of(self@), addr) == Some(c.model()),
                None => lookup(models_of(self@), addr) is None,
            },
    {
        let n = self.cmds.len();
        let mut i: usize = 0;
        proof {
            assert(models_of(self@).skip(0) =~= models_of(self@));
        }
        while i < n
            invariant
                n == self@.len(),
                i <= n,
                lookup(models_of(self@), addr) == lookup(models_of(self@).skip(i as int), addr),
            decreases n - i,
        {
            let c = self.cmds[i].get_char();
            proof {
                let ms = models_of(self@);
                assert(ms.skip(i as int).len() == n - i);
                assert(ms.skip(i as int)[0] == ms[i as int]);
                assert(ms.skip(i as int).drop_first() =~= ms.skip(i as int + 1));
            }
            if c as u32 == addr as u32 {
                proof {
                    vstd::utf8::char_u32_cast(c, c as u32);
                    vstd::utf8::char_u32_cast(addr, addr as u32);
                    assert(c == addr);
                }
                return Some(&self.cmds[i]);
            }
            proof {
                assert(self@[i as int].model().addr == c);
                assert(c != addr) by {
                    vstd::utf8::char_u32_cast(c, c as u32);
                    vstd::utf8::char_u32_cast(addr, addr as u32);
                }
            }
            i += 1;
        }
        proof {
            assert(models_of(self@).skip(n as int) =~= Seq::<CmdModel>::empty());
        }
        None
    }

    /// Read access to the stored commands, in storage order.
    pub fn commands(&self) -> (r: &Vec<C>)
        ensures
            r@ == self@,
    {
        &self.cmds
    }
}

/// Building a registry is deterministic: two registries built from the
/// same commands, reordered arbitrarily, have the same model sequence,
/// and therefore identical lookup behaviour.
pub proof fn lemma_build_deterministic<C: Command>(m1: Seq<CmdModel>, m2: Seq<CmdModel>)
    requires
        sorted_models::<C>(m1),
        sorted_models::<C>(m2),
        m1.to_multiset() == m2.to_multiset(),
    ensures
        m1 == m2,
        forall|a: char| lookup(m1, a) == lookup(m2, a),
{
    C::lemma_le_total_ordering();
    lemma_sorted_unique(m1, m2, |a: CmdModel, b: CmdModel| C::le_model(a, b));
    assert(m1 =~= m2);
}

/// With unique addresses, lookup finds each stored command by its own
/// address.
pub proof fn lemma_lookup_found(ms: Seq<CmdModel>, i: int)
    requires
        0 <= i < ms.len(),
        forall|j: int| 0 <= j < i ==> (#[trigger] ms[j]).addr != ms[i].addr,
    ensures
        lookup(ms, ms[i].addr) == Some(ms[i]),
    decreases i,
{
    if i > 0 {
        assert(ms.drop_first()[i - 1] == ms[i]);
        assert forall|j: int| 0 <= j < i - 1 implies (#[trigger] ms.drop_first()[j]).addr != ms
            .drop_first()[i - 1].addr by {
            assert(ms.drop_first()[j] == ms[j + 1]);
        }
        lemma_lookup_found(ms.drop_first(), i - 1);
    }
}

/// Lookup of an absent address returns nothing.
pub proof fn lemma_lookup_absent(ms: Seq<CmdModel>, a: char)
    requires
        forall|j: int| 0 <= j < ms.len() ==> (#[trigger] ms[j]).addr != a,
    ensures
        lookup(ms, a) is None,
    decreases ms.len(),
{
    if ms.len() > 0 {
        lemma_lookup_absent(ms.drop_first(), a);
    }
}

/// With duplicate addresses, lookup returns the command at the least
/// index carrying that address: the first match in storage order, so
/// later duplicates are unreachable.
pub proof fn lemma_lookup_first(ms: Seq<CmdModel>, a: char, i: int)
    requires
        0 <= i < ms.len(),
        ms[i].addr == a,
        forall|j: int| 0 <= j < i ==> (#[trigger] ms[j]).addr != a,
    ensures
        lookup(ms, a) == Some(ms[i]),
    decreases i,
{
    if i > 0 {
        assert(ms.drop_first()[i - 1] == ms[i]);
        assert forall|j: int| 0 <= j < i - 1 implies (#[trigger] ms.drop_first()[j]).addr != a by {
            assert(ms.drop_first()[j] == ms[j + 1]);
        }
        lemma_lookup_first(ms.drop_first(), a, i - 1);
    }
}

} // verus!
