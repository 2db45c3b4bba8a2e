//! Compact encoding of a walk through the tangle: every step is one of four
//! two-bit codes (end, trunk, branch, both), packed four to a byte.
use vstd::prelude::*;

verus! {

/// The walk ends here (no parent followed).
pub const _E: u8 = 0b00000000u8;
/// The walk follows the trunk.
pub const _T: u8 = 0b10000000u8;
/// The walk follows the branch.
pub const _B: u8 = 0b01000000u8;
/// The walk follows both parents.
pub const _Y: u8 = 0b11000000u8;

/// Number of two-bit steps held by one byte.
pub const STEPS_PER_FIELD: usize = 4;

pub struct PathwayDescriptor {
    pub size: usize,
    pub tx_count: usize,
    pub fields: Box<Vec<u8>>,
}

/// The two bits of slot `j` (0 = most significant) of byte `b`, moved to the top.
pub open spec fn slot(b: u8, j: u8) -> u8 {
    (b << ((2 * j) as u8)) & 0xC0u8
}

/// The step stored at position `i` of the packed fields.
pub open spec fn step_at(fields: Seq<u8>, i: int) -> u8 {
    slot(fields[i / 4], (i % 4) as u8)
}

/// A value is one of the four step codes.
pub open spec fn is_step_code(w: u8) -> bool {
    w == _E || w == _T || w == _B || w == _Y
}

/// Abstract state of a descriptor: its size, its transaction count and its packed bytes.
pub struct PathwayModel {
    pub size: nat,
    pub tx_count: nat,
    pub fields: Seq<u8>,
}

/// How many transactions one step accounts for.
pub open spec fn step_tx_increment(w: u8) -> nat {
    if w == _Y { 2 } else { 1 }
}

/// The packed bytes after appending `what` to a descriptor of `size` steps.
pub open spec fn fields_after_add(fields: Seq<u8>, size: nat, what: u8) -> Seq<u8> {
    let pushed = if size % 4 == 0 { fields.push(0u8) } else { fields };
    pushed.update(pushed.len() - 1, (pushed.last() | (what >> (2 * (size % 4)) as u8)) as u8)
}

/// The abstract effect of `add_to_path`.
pub open spec fn model_add(m: PathwayModel, what: u8) -> PathwayModel {
    PathwayModel {
        size: m.size + 1,
        tx_count: m.tx_count + step_tx_increment(what),
        fields: fields_after_add(m.fields, m.size, what),
    }
}

/// The abstract effect of appending every step of `steps`, in order.
pub open spec fn model_add_all(m: PathwayModel, steps: Seq<u8>) -> PathwayModel
    decreases steps.len(),
{
    if steps.len() == 0 {
        m
    } else {
        model_add_all(model_add(m, steps[0]), steps.drop_first())
    }
}

/// Total transaction count contributed by a sequence of steps.
pub open spec fn tx_increment_of(steps: Seq<u8>) -> nat
    decreases steps.len(),
{
    if steps.len() == 0 {
        0
    } else {
        step_tx_increment(steps[0]) + tx_increment_of(steps.drop_first())
    }
}

/// The steps held by a model.
pub open spec fn model_steps(m: PathwayModel) -> Seq<u8> {
    Seq::new(m.size, |i: int| step_at(m.fields, i))
}

/// No bits are set after the last step.
pub open spec fn model_clean(m: PathwayModel) -> bool {
    forall|i: int| m.size <= i < 4 * m.fields.len() ==> #[trigger] step_at(m.fields, i) == 0
}

/// The model holds exactly as many bytes as its steps need.
pub open spec fn model_tight(m: PathwayModel) -> bool {
    m.fields.len() == (m.size + 3) / 4
}

proof fn lemma_slot_bits(b: u8, w: u8, k: u8, j: u8)
    by (bit_vector)
    requires
        k < 4,
        j < 4,
        w & 0x3Fu8 == 0,
        b << ((2 * k) as u8) == 0,
    ensures
        ((b | (w >> ((2 * k) as u8))) << ((2 * k) as u8)) & 0xC0u8 == w,
        j < k ==> ((b | (w >> ((2 * k) as u8))) << ((2 * j) as u8)) & 0xC0u8 == (b << ((2 * j) as u8)) & 0xC0u8,
        j > k ==> ((b | (w >> ((2 * k) as u8))) << ((2 * j) as u8)) & 0xC0u8 == 0,
{
}

proof fn lemma_clean_byte(b: u8, k: u8)
    by (bit_vector)
    requires
        k < 4,
        k <= 0 ==> (b << 0u8) & 0xC0u8 == 0,
        k <= 1 ==> (b << 2u8) & 0xC0u8 == 0,
        k <= 2 ==> (b << 4u8) & 0xC0u8 == 0,
        (b << 6u8) & 0xC0u8 == 0,
    ensures
        b << ((2 * k) as u8) == 0,
{
}

proof fn lemma_code_low_bits(w: u8)
    by (bit_vector)
    requires
        w == 0u8 || w == 0x80u8 || w == 0x40u8 || w == 0xC0u8,
    ensures
        w & 0x3Fu8 == 0,
{
}

/// Appending a step code to a tight, clean descriptor appends exactly that step,
/// keeps every earlier step, and keeps the descriptor tight and clean.
pub proof fn lemma_add_appends_step(m: PathwayModel, w: u8)
    requires
        model_tight(m),
        model_clean(m),
        is_step_code(w),
    ensures
        model_steps(model_add(m, w)) == model_steps(m).push(w),
        model_tight(model_add(m, w)),
        model_clean(model_add(m, w)),
        model_add(m, w).tx_count == m.tx_count + step_tx_increment(w),
{
    let s: int = m.size as int;
    let q: int = s / 4;
    let k = (s % 4) as u8;
    let f2 = model_add(m, w).fields;
    lemma_code_low_bits(w);
    let b: u8 = if s % 4 == 0 { 0u8 } else { m.fields[q as int] };
    if s % 4 != 0 {
        assert(4 * q + 3 < 4 * m.fields.len());
        let i0 = 4 * q + 0;
        let i1 = 4 * q + 1;
        let i2 = 4 * q + 2;
        let i3 = 4 * q + 3;
        if k <= 0 { assert(step_at(m.fields, i0) == 0); assert(i0 / 4 == q && i0 % 4 == 0); }
        if k <= 1 { assert(step_at(m.fields, i1) == 0); assert(i1 / 4 == q && i1 % 4 == 1); }
        if k <= 2 { assert(step_at(m.fields, i2) == 0); assert(i2 / 4 == q && i2 % 4 == 2); }
        assert(step_at(m.fields, i3) == 0);
        assert(i3 / 4 == q && i3 % 4 == 3);
        lemma_clean_byte(b, k);
    } else {
        assert(b << ((2 * k) as u8) == 0) by (bit_vector) requires b == 0u8;
    }
    assert(f2.len() == q + 1);
    assert(f2[q as int] == (b | (w >> ((2 * k) as u8))));
    assert forall|i: int| 0 <= i < q * 4 implies step_at(f2, i) == step_at(m.fields, i) by {
        assert(i / 4 < q);
    }
    assert forall|i: int| 0 <= i < s + 1 implies step_at(f2, i) == model_steps(m).push(w)[i] by {
        if i < 4 * q {
            assert(i / 4 < q);
        } else {
            assert(i / 4 == q);
            let j = (i % 4) as u8;
            lemma_slot_bits(b, w, k, j);
            if i < s {
                assert(j < k);
            } else {
                assert(j == k);
            }
        }
    }
    assert(model_steps(model_add(m, w)) =~= model_steps(m).push(w));
    assert forall|i: int| s + 1 <= i < 4 * f2.len() implies #[trigger] step_at(f2, i) == 0 by {
        assert(i / 4 == q);
        let j = (i % 4) as u8;
        lemma_slot_bits(b, w, k, j);
        assert(j > k);
    }
}

/// Every value read back from packed fields is a step code.
pub proof fn lemma_step_at_is_code(fields: Seq<u8>, i: int)
    requires
        0 <= i / 4 < fields.len(),
    ensures
        is_step_code(step_at(fields, i)),
{
    let b = fields[i / 4];
    let j = (i % 4) as u8;
    assert((b << ((2 * j) as u8)) & 0xC0u8 == 0u8 || (b << ((2 * j) as u8)) & 0xC0u8 == 0x80u8
        || (b << ((2 * j) as u8)) & 0xC0u8 == 0x40u8 || (b << ((2 * j) as u8)) & 0xC0u8 == 0xC0u8)
        by (bit_vector);
}

/// Appending step codes one by one to a tight, clean descriptor appends exactly those steps.
pub proof fn lemma_add_all_appends_steps(m: PathwayModel, steps: Seq<u8>)
    requires
        model_tight(m),
        model_clean(m),
        forall|i: int| 0 <= i < steps.len() ==> is_step_code(#[trigger] steps[i]),
    ensures
        model_steps(model_add_all(m, steps)) == model_steps(m) + steps,
        model_tight(model_add_all(m, steps)),
        model_clean(model_add_all(m, steps)),
    decreases steps.len(),
{
    if steps.len() == 0 {
        assert(model_steps(m) + steps =~= model_steps(m));
    } else {
        assert(is_step_code(steps[0]));
        lemma_add_appends_step(m, steps[0]);
        let m1 = model_add(m, steps[0]);
        assert forall|i: int| 0 <= i < steps.drop_first().len() implies is_step_code(
            #[trigger] steps.drop_first()[i],
        ) by {
            assert(steps.drop_first()[i] == steps[i + 1]);
        }
        lemma_add_all_appends_steps(m1, steps.drop_first());
        assert(model_steps(m).push(steps[0]) + steps.drop_first() =~= model_steps(m) + steps);
    }
}

/// Extending a tight, clean pathway whose last step is an end marker (and whose
/// length is not one more than a multiple of four) replaces that end marker with
/// the steps of the other pathway.
pub proof fn lemma_extend_concatenates(m: PathwayModel, other: PathwayModel)
    requires
        model_tight(m),
        model_clean(m),
        m.size >= 1,
        m.size % 4 != 1,
        step_at(m.fields, m.size - 1) == _E,
        other.size <= 4 * other.fields.len(),
    ensures
        model_steps(
            model_add_all(
                PathwayModel { size: (m.size - 1) as nat, tx_count: (m.tx_count - 1) as nat, fields: m.fields },
                model_steps(other),
            ),
        ) == model_steps(m).drop_last() + model_steps(other),
{
    let m0 = PathwayModel { size: (m.size - 1) as nat, tx_count: (m.tx_count - 1) as nat, fields: m.fields };
    assert(model_tight(m0));
    assert forall|i: int| m0.size <= i < 4 * m0.fields.len() implies #[trigger] step_at(m0.fields, i) == 0 by {
        if i >= m.size {
            assert(step_at(m.fields, i) == 0);
        }
    }
    assert forall|i: int| 0 <= i < model_steps(other).len() implies is_step_code(
        #[trigger] model_steps(other)[i],
    ) by {
        lemma_step_at_is_code(other.fields, i);
    }
    lemma_add_all_appends_steps(m0, model_steps(other));
    assert(model_steps(m0) =~= model_steps(m).drop_last());
}

impl PathwayDescriptor {
    pub open spec fn model(&self) -> PathwayModel {
        PathwayModel { size: self.size as nat, tx_count: self.tx_count as nat, fields: self.fields@ }
    }

    /// Every stored step has a byte to live in.
    pub open spec fn wf(&self) -> bool {
        self.size <= 4 * self.fields@.len()
    }

    /// The steps of the descriptor, in order.
    pub open spec fn steps(&self) -> Seq<u8> {
        Seq::new(self.size as nat, |i: int| step_at(self.fields@, i))
    }

    /// Bits after the last stored step are all zero.
    pub open spec fn clean(&self) -> bool {
        forall|i: int| self.size <= i < 4 * self.fields@.len() ==> step_at(self.fields@, i) == 0
    }

    /// A pathway of one step to the trunk, then the end.
    pub fn trunk() -> (r: PathwayDescriptor)
        ensures
            r.model() == model_add(model_add(PathwayModel { size: 0, tx_count: 0, fields: Seq::empty() }, _T), _E),
            r.wf(),
    {
        let mut p = PathwayDescriptor::new();
        p.add_to_path(_T);
        p.add_to_path(_E);
        p
    }

    /// A pathway of one step to the branch, then the end.
    pub fn branch() -> (r: PathwayDescriptor)
        ensures
            r.model() == model_add(model_add(PathwayModel { size: 0, tx_count: 0, fields: Seq::empty() }, _B), _E),
            r.wf(),
    {
        let mut p = PathwayDescriptor::new();
        p.add_to_path(_B);
        p.add_to_path(_E);
        p
    }

    /// The steps from position `start` up to (not including) `end`, as a
    /// pathway of their own.
    pub fn slice(&self, start: usize, end: usize) -> (r: PathwayDescriptor)
        requires
            self.wf(),
            start <= end <= self.size,
            2 * (end - start) <= usize::MAX,
        ensures
            r.model() == model_add_all(
                PathwayModel { size: 0, tx_count: 0, fields: Seq::empty() },
                self.steps().subrange(start as int, end as int),
            ),
            r.wf(),
    {
        let ghost empty = PathwayModel { size: 0, tx_count: 0, fields: Seq::<u8>::empty() };
        let mut r = PathwayDescriptor::new();
        let mut i: usize = start;
        assert(self.steps().subrange(start as int, start as int) =~= Seq::<u8>::empty());
        while i < end
            invariant
                start <= i <= end <= self.size,
                self.wf(),
                2 * (end - start) <= usize::MAX,
                r.model() == model_add_all(empty, self.steps().subrange(start as int, i as int)),
                r.wf(),
                r.size == i - start,
                r.tx_count <= 2 * (i - start),
            decreases end - i,
        {
            let w = self.get_at_index(i).unwrap();
            proof {
                lemma_add_all_push(empty, self.steps().subrange(start as int, i as int), w);
                assert(self.steps().subrange(start as int, i as int).push(w) =~= self.steps().subrange(start as int, i + 1));
            }
            r.add_to_path(w);
            i = i + 1;
        }
        r
    }

    /// A copy holding the same steps.
    pub fn duplicate(&self) -> (r: PathwayDescriptor)
        ensures
            r.model() == self.model(),
    {
        let mut fields: Vec<u8> = Vec::new();
        let mut i: usize = 0;
        while i < self.fields.len()
            invariant
                i <= self.fields@.len(),
                fields@ == self.fields@.subrange(0, i as int),
            decreases self.fields@.len() - i,
        {
            fields.push(self.fields[i]);
            i = i + 1;
        }
        assert(fields@ =~= self.fields@);
        PathwayDescriptor { size: self.size, tx_count: self.tx_count, fields: Box::new(fields) }
    }

    pub fn new() -> (r: PathwayDescriptor)
        ensures
            r.size == 0,
            r.tx_count == 0,
            r.fields@ == Seq::<u8>::empty(),
    {
        PathwayDescriptor { size: 0, tx_count: 0, fields: Box::new(Vec::new()) }
    }

    /// Appends one step and returns the new number of steps.
    pub fn add_to_path(&mut self, what: u8) -> (r: usize)
        requires
            old(self).wf(),
            old(self).size < usize::MAX,
            old(self).tx_count + step_tx_increment(what) <= usize::MAX,
        ensures
            final(self).model() == model_add(old(self).model(), what),
            final(self).wf(),
            r == final(self).size,
    {
        if self.size % STEPS_PER_FIELD == 0 {
            self.fields.push(0b00000000u8);
        }
        let last_index = self.fields.len() - 1;
        let edited = self.fields[last_index];
        let shift: u8 = (2 * (self.size % STEPS_PER_FIELD)) as u8;
        let shifted = what >> shift;
        let added = edited | shifted;
        self.fields.set(last_index, added);
        if what == _Y {
            self.tx_count = self.tx_count + 2;
        } else {
            self.tx_count = self.tx_count + 1;
        }
        self.size = self.size + 1;
        self.size
    }

    /// The step at `index`, or `None` past the end.
    pub fn get_at_index(&self, index: usize) -> (r: Option<u8>)
        requires
            self.wf(),
        ensures
            r == (if index >= self.size { None } else { Some(step_at(self.fields@, index as int)) }),
    {
        if index >= self.size {
            None
        } else {
            let j: u8 = (index % STEPS_PER_FIELD) as u8;
            let shift: u8 = 2 * j;
            Some((self.fields[index / STEPS_PER_FIELD] << shift) & 0b11000000u8)
        }
    }

    /// A readable rendering: every byte as `|` followed by its binary digits.
    pub fn format(&self) -> (r: String)
        ensures
            r@ == format_fields(self.fields@),
    {
        let mut result = String::new();
        let mut i: usize = 0;
        while i < self.fields.len()
            invariant
                i <= self.fields@.len(),
                result@ == format_fields(self.fields@.subrange(0, i as int)),
            decreases self.fields@.len() - i,
        {
            push_char(&mut result, '|');
            let digits = binary_digits(self.fields[i]);
            result.append(digits.as_str());
            proof {
                assert(self.fields@.subrange(0, i + 1).drop_last() =~= self.fields@.subrange(0, i as int));
            }
            i = i + 1;
        }
        proof {
            assert(self.fields@.subrange(0, self.fields@.len() as int) =~= self.fields@);
        }
        result
    }

    /// Takes the last step off the count and adds the steps of `pathway`
    /// after the remaining ones. The bits of the step taken off are not
    /// cleared: where the count had just entered a new byte, that byte stays
    /// in `fields` and the added steps start a byte after it; otherwise the
    /// first added step is combined with those bits. The contract gives the
    /// resulting descriptor exactly.
    pub fn extend(&mut self, pathway: PathwayDescriptor)
        requires
            old(self).wf(),
            pathway.wf(),
            old(self).size >= 1,
            old(self).tx_count >= 1,
            old(self).size - 1 + pathway.size <= usize::MAX,
            pathway.size < usize::MAX,
            old(self).tx_count - 1 + tx_increment_of(pathway.steps()) <= usize::MAX,
        ensures
            final(self).model() == model_add_all(
                PathwayModel {
                    size: (old(self).size - 1) as nat,
                    tx_count: (old(self).tx_count - 1) as nat,
                    fields: old(self).fields@,
                },
                pathway.steps(),
            ),
            final(self).wf(),
    {
        self.size = self.size - 1;
        self.tx_count = self.tx_count - 1;
        let ghost start = self.model();
        let ghost steps = pathway.steps();
        let mut iterator = PathwayIterator { descriptor: pathway, index: 0 };
        loop
            invariant_except_break
                iterator.index <= iterator.descriptor.size,
                self.model() == model_add_all(start, steps.subrange(0, iterator.index as int)),
            invariant
                iterator.descriptor.wf(),
                iterator.descriptor.steps() == steps,
                iterator.descriptor.size == steps.len(),
                iterator.descriptor.size < usize::MAX,
                self.wf(),
                start.size + steps.len() <= usize::MAX,
                start.tx_count + tx_increment_of(steps) <= usize::MAX,
            ensures
                self.wf(),
                self.model() == model_add_all(start, steps),
            decreases iterator.descriptor.size - iterator.index,
        {
            let ghost before = iterator.index;
            let step = iterator.next();
            match step {
                None => {
                    proof {
                        assert(steps.subrange(0, before as int) =~= steps);
                    }
                    break;
                },
                Some(w) => {
                    proof {
                        lemma_add_all_push(start, steps.subrange(0, before as int), w);
                        assert(steps.subrange(0, before + 1) =~= steps.subrange(0, before as int).push(w));
                        lemma_tx_increment_prefix(steps, before + 1);
                        lemma_tx_increment_push(steps.subrange(0, before as int), w);
                        lemma_model_add_all_size(start, steps.subrange(0, before as int));
                    }
                    self.add_to_path(w);
                },
            }
        }
    }
}

/// A cursor over the steps of a descriptor.
pub struct PathwayIterator {
    pub descriptor: PathwayDescriptor,
    pub index: usize,
}

impl PathwayIterator {
    /// The step under the cursor (or `None` past the end); the cursor moves on.
    pub fn next(&mut self) -> (r: Option<u8>)
        requires
            old(self).descriptor.wf(),
            old(self).index < usize::MAX,
        ensures
            final(self).descriptor == old(self).descriptor,
            final(self).index == old(self).index + 1,
            r == (if old(self).index >= old(self).descriptor.size {
                None
            } else {
                Some(step_at(old(self).descriptor.fields@, old(self).index as int))
            }),
    {
        let r = self.descriptor.get_at_index(self.index);
        self.index = self.index + 1;
        r
    }
}

/// Binary digits of `n`, most significant first, without leading zeros.
pub open spec fn binary_digits_of(n: nat) -> Seq<char>
    decreases n,
{
    if n < 2 {
        seq![if n == 0 { '0' } else { '1' }]
    } else {
        binary_digits_of(n / 2).push(if n % 2 == 0 { '0' } else { '1' })
    }
}

/// Every byte rendered as `|` followed by its binary digits.
pub open spec fn format_fields(fields: Seq<u8>) -> Seq<char>
    decreases fields.len(),
{
    if fields.len() == 0 {
        Seq::empty()
    } else {
        format_fields(fields.drop_last()) + seq!['|'] + binary_digits_of(fields.last() as nat)
    }
}

/// Renders `b` in binary, most significant digit first.
pub fn binary_digits(b: u8) -> (r: String)
    ensures
        r@ == binary_digits_of(b as nat),
{
    let mut digits: Vec<char> = Vec::new();
    let mut n: u8 = b;
    // collect least significant first
    loop
        invariant
            n <= b,
            binary_digits_of(b as nat) == binary_digits_of(n as nat) + digits@.reverse(),
        ensures
            n < 2,
            binary_digits_of(b as nat) == binary_digits_of(n as nat) + digits@.reverse(),
        decreases n,
    {
        if n < 2 {
            break;
        }
        let d = if n % 2 == 0 { '0' } else { '1' };
        proof {
            assert(binary_digits_of(n as nat) == binary_digits_of((n / 2) as nat).push(d));
            assert(digits@.push(d).reverse() =~= seq![d] + digits@.reverse());
        }
        digits.push(d);
        n = n / 2;
    }
    let mut result = String::new();
    push_char(&mut result, if n == 0 { '0' } else { '1' });
    let mut i: usize = digits.len();
    proof {
        assert(digits@.subrange(i as int, digits@.len() as int).reverse() =~= Seq::<char>::empty());
        assert(result@ =~= binary_digits_of(n as nat));
    }
    while i > 0
        invariant
            i <= digits@.len(),
            result@ == binary_digits_of(n as nat) + digits@.subrange(i as int, digits@.len() as int).reverse(),
            binary_digits_of(b as nat) == binary_digits_of(n as nat) + digits@.reverse(),
        decreases i,
    {
        i = i - 1;
        push_char(&mut result, digits[i]);
        proof {
            assert(digits@.subrange(i as int, digits@.len() as int).reverse() =~= digits@.subrange(
                i + 1,
                digits@.len() as int,
            ).reverse().push(digits@[i as int]));
        }
    }
    proof {
        assert(digits@.subrange(0, digits@.len() as int) =~= digits@);
    }
    result
}

/// Appends one character to a string.
#[verifier::external_body]
pub(crate) fn push_char(s: &mut String, c: char)
    ensures
        final(s)@ == old(s)@.push(c),
{
    s.push(c);
}

/// Adding a list of steps and then one more is adding the longer list.
pub proof fn lemma_add_all_push(m: PathwayModel, steps: Seq<u8>, w: u8)
    ensures
        model_add_all(m, steps.push(w)) == model_add(model_add_all(m, steps), w),
    decreases steps.len(),
{
    if steps.len() == 0 {
        assert(steps.push(w).drop_first() =~= Seq::<u8>::empty());
        assert(steps.push(w)[0] == w);
        assert(model_add_all(model_add(m, w), Seq::<u8>::empty()) == model_add(m, w));
        assert(steps =~= Seq::<u8>::empty());
    } else {
        assert(steps.push(w).drop_first() =~= steps.drop_first().push(w));
        assert(steps.push(w)[0] == steps[0]);
        lemma_add_all_push(model_add(m, steps[0]), steps.drop_first(), w);
    }
}

/// Adding steps counts them in the size and their transactions in the count.
pub proof fn lemma_model_add_all_size(m: PathwayModel, steps: Seq<u8>)
    ensures
        model_add_all(m, steps).size == m.size + steps.len(),
        model_add_all(m, steps).tx_count == m.tx_count + tx_increment_of(steps),
        m.size <= 4 * m.fields.len() ==> model_add_all(m, steps).size <= 4 * model_add_all(m, steps).fields.len(),
    decreases steps.len(),
{
    if steps.len() > 0 {
        lemma_model_add_all_size(model_add(m, steps[0]), steps.drop_first());
    }
}

proof fn lemma_tx_increment_push(steps: Seq<u8>, w: u8)
    ensures
        tx_increment_of(steps.push(w)) == tx_increment_of(steps) + step_tx_increment(w),
    decreases steps.len(),
{
    if steps.len() == 0 {
        assert(steps.push(w).drop_first() =~= Seq::<u8>::empty());
        assert(steps.push(w)[0] == w);
        assert(tx_increment_of(Seq::<u8>::empty()) == 0);
    } else {
        assert(steps.push(w).drop_first() =~= steps.drop_first().push(w));
        assert(steps.push(w)[0] == steps[0]);
        lemma_tx_increment_push(steps.drop_first(), w);
    }
}

proof fn lemma_tx_increment_prefix(steps: Seq<u8>, k: int)
    requires
        0 <= k <= steps.len(),
    ensures
        tx_increment_of(steps.subrange(0, k)) <= tx_increment_of(steps),
    decreases steps.len(),
{
    if k > 0 {
        lemma_tx_increment_prefix(steps.drop_first(), k - 1);
        assert(steps.subrange(0, k).drop_first() =~= steps.drop_first().subrange(0, k - 1));
    }
}

} // verus!
