//! Tensors in memory and on disk: the file format, and which tensors leave memory when it is
//! short. What has to be written to or removed from the disk is handed back as actions.
use vstd::prelude::*;
use crate::bytes;
use crate::bytes::{push_le, push_words, read_le, read_words, Word};
use crate::gui;
use crate::gui::push_one_place;
use crate::nn;
use crate::nn::Module;
use crate::number::Real;
use crate::table;
use crate::table::Table;
use crate::tensor;
use crate::tensor::{copy_slice, Tensor};
use crate::text;
use crate::text::{chars_of, owned, push_decimal, push_text, string_of};

verus! {

/// Where a tensor is.
#[derive(Debug, Clone, Copy, PartialEq, Eq, Structural)]
pub enum MemoryTier {
    /// The memory of a graphics card.
    Gpu,
    /// The main memory.
    Ram,
    /// The disk.
    Ssd,
}

impl MemoryTier {
    /// The name of the tier.
    pub fn name(&self) -> (r: &'static str)
        ensures
            r@ == (match *self {
                MemoryTier::Gpu => "GPU"@,
                MemoryTier::Ram => "RAM"@,
                MemoryTier::Ssd => "SSD"@,
            }),
    {
        match self {
            MemoryTier::Gpu => "GPU",
            MemoryTier::Ram => "RAM",
            MemoryTier::Ssd => "SSD",
        }
    }
}

/// When tensors leave memory, and where they go.
#[derive(Debug, Clone)]
pub struct OffloadConfig {
    /// How many bytes may be in memory; zero for no limit.
    pub ram_budget_bytes: usize,
    /// The directory for tensor files.
    pub ssd_dir: String,
    /// How many tensors may be in memory; beyond that the coldest leave it.
    pub hot_cache_size: usize,
}

impl OffloadConfig {
    /// How much may be in memory.
    pub open spec fn limits(&self) -> Limits {
        Limits { bytes: self.ram_budget_bytes as int, count: self.hot_cache_size as int }
    }

    /// Two gigabytes, a directory below the given home or the temporary one, thirty-two tensors.
    pub fn for_home(home: Option<&str>) -> (r: Self)
        ensures
            r.ram_budget_bytes == 2147483648,
            r.ssd_dir@ == (match home {
                Some(h) => h@,
                None => "/tmp"@,
            }) + "/.cache/rust-nn/ssd"@,
            r.hot_cache_size == 32,
    {
        let mut dir: Vec<char> = match home {
            Some(h) => chars_of(h),
            None => chars_of("/tmp"),
        };
        push_text(&mut dir, "/.cache/rust-nn/ssd");
        OffloadConfig {
            ram_budget_bytes: 2147483648,
            ssd_dir: string_of(&dir),
            hot_cache_size: 32,
        }
    }

    /// Sets the limit in gigabytes, rounded down to bytes.
    pub fn with_ram_budget_gb<S: Real>(self, gb: S) -> (r: Self)
        requires
            budget_bytes(gb) <= usize::MAX,
        ensures
            r.ram_budget_bytes == budget_bytes(gb),
            r.ssd_dir == self.ssd_dir,
            r.hot_cache_size == self.hot_cache_size,
    {
        let k = S::count(1024);
        let w: i64 = gb.times(k).times(k).times(k).whole();
        OffloadConfig {
            ram_budget_bytes: if w < 0 {
                0
            } else {
                w as usize
            },
            ssd_dir: self.ssd_dir,
            hot_cache_size: self.hot_cache_size,
        }
    }

    /// Sets the directory.
    pub fn with_ssd_dir(self, dir: &str) -> (r: Self)
        ensures
            r.ssd_dir@ == dir@,
            r.ram_budget_bytes == self.ram_budget_bytes,
            r.hot_cache_size == self.hot_cache_size,
    {
        OffloadConfig {
            ram_budget_bytes: self.ram_budget_bytes,
            ssd_dir: owned(dir),
            hot_cache_size: self.hot_cache_size,
        }
    }

    /// Sets how many tensors to keep in memory.
    pub fn with_hot_cache(self, size: usize) -> (r: Self)
        ensures
            r.hot_cache_size == size,
            r.ram_budget_bytes == self.ram_budget_bytes,
            r.ssd_dir == self.ssd_dir,
    {
        OffloadConfig {
            ram_budget_bytes: self.ram_budget_bytes,
            ssd_dir: self.ssd_dir,
            hot_cache_size: size,
        }
    }
}

/// Gigabytes in bytes, rounded down, but not below zero.
pub open spec fn budget_bytes<S: Real>(gb: S) -> int {
    let k = S::spec_count(1024);
    let w = gb.spec_times(k).spec_times(k).spec_times(k).spec_whole();
    if w < 0 {
        0
    } else {
        w as int
    }
}

/// Numbers for files, one after the other.
pub fn next_id(counter: &mut u64) -> (r: u64)
    ensures
        r == *old(counter),
        *final(counter) == (if *old(counter) == u64::MAX {
            0
        } else {
            (*old(counter) + 1) as u64
        }),
{
    let id: u64 = *counter;
    *counter = id.wrapping_add(1);
    id
}

// ---- The file format

/// The bytes of a shape, eight for each axis.
pub open spec fn shape_bytes(shape: Seq<usize>) -> Seq<u8>
    decreases shape.len(),
{
    if shape.len() == 0 {
        Seq::empty()
    } else {
        shape_bytes(shape.drop_last()) + bytes::le_bytes(shape.last() as nat, 8)
    }
}

/// The bytes of a tensor: the number of axes in four bytes, their lengths, then the elements.
pub open spec fn file_bytes<W: Word>(v: tensor::Value<W>) -> Seq<u8> {
    bytes::le_bytes((v.shape.len() % 0x1_0000_0000) as nat, 4) + shape_bytes(v.shape)
        + bytes::word_bytes(v.data)
}

/// The number of axes that a file says it has.
pub open spec fn axes_in(raw: Seq<u8>) -> nat {
    bytes::le_value(raw.subrange(0, 4))
}

/// The shape that a file holds.
pub open spec fn shape_in(raw: Seq<u8>) -> Seq<usize> {
    Seq::new(
        axes_in(raw),
        |i: int| bytes::le_value(raw.subrange(4 + 8 * i, 12 + 8 * i)) as usize,
    )
}

/// The tensor that a file holds.
pub open spec fn value_in<W: Word>(raw: Seq<u8>) -> tensor::Value<W> {
    tensor::Value {
        data: bytes::words_in::<W>(raw.skip((4 + 8 * axes_in(raw)) as int)),
        shape: shape_in(raw),
    }
}

/// The file has a whole header, its axes fit the machine, and it has as many elements as they say.
pub open spec fn readable(raw: Seq<u8>) -> bool {
    &&& raw.len() >= 4
    &&& raw.len() >= 4 + 8 * axes_in(raw)
    &&& forall|i: int|
        0 <= i < axes_in(raw) ==> #[trigger] bytes::le_value(
            raw.subrange(4 + 8 * i, 12 + 8 * i),
        ) <= usize::MAX
    &&& tensor::countable(shape_in(raw))
    &&& (raw.len() - 4 - 8 * axes_in(raw)) / 4 == tensor::volume(shape_in(raw))
}

/// What a file holds where it is too short for a header.
#[derive(Debug, Clone, Copy, PartialEq, Eq, Structural)]
pub struct TooShort;

proof fn lemma_shape_bytes(shape: Seq<usize>)
    ensures
        shape_bytes(shape).len() == 8 * shape.len(),
        forall|i: int|
            0 <= i < shape.len() ==> #[trigger] shape_bytes(shape).subrange(8 * i, 8 * i + 8)
                == bytes::le_bytes(shape[i] as nat, 8),
    decreases shape.len(),
{
    if shape.len() > 0 {
        let front = shape.drop_last();
        lemma_shape_bytes(front);
        bytes::lemma_le_len(shape.last() as nat, 8);
        let all = shape_bytes(shape);
        assert forall|i: int| 0 <= i < shape.len() implies #[trigger] all.subrange(
            8 * i,
            8 * i + 8,
        ) == bytes::le_bytes(shape[i] as nat, 8) by {
            if i < front.len() {
                assert(all.subrange(8 * i, 8 * i + 8) =~= shape_bytes(front).subrange(
                    8 * i,
                    8 * i + 8,
                ));
            } else {
                assert(all.subrange(8 * i, 8 * i + 8) =~= bytes::le_bytes(
                    shape.last() as nat,
                    8,
                ));
            }
        }
    }
}

/// Reading the bytes of a tensor gives back the tensor.
pub proof fn lemma_file_round_trip<W: Word>(v: tensor::Value<W>)
    requires
        v.wf(),
        v.shape.len() < 0x1_0000_0000,
    ensures
        readable(file_bytes(v)),
        value_in::<W>(file_bytes(v)) == v,
{
    let n = v.shape.len();
    let raw = file_bytes(v);
    assert(n % 0x1_0000_0000 == n) by {
        vstd::arithmetic::div_mod::lemma_small_mod(n, 0x1_0000_0000);
    }
    bytes::lemma_le_len(n, 4);
    bytes::lemma_range(4);
    bytes::lemma_le_round_trip(n, 4);
    lemma_shape_bytes(v.shape);
    bytes::lemma_words_round_trip(v.data);
    assert(raw.subrange(0, 4) =~= bytes::le_bytes(n, 4));
    assert(axes_in(raw) == n);
    assert forall|i: int| 0 <= i < n implies #[trigger] bytes::le_value(
        raw.subrange(4 + 8 * i, 12 + 8 * i),
    ) == v.shape[i] by {
        assert(raw.subrange(4 + 8 * i, 12 + 8 * i) =~= shape_bytes(v.shape).subrange(
            8 * i,
            8 * i + 8,
        ));
        bytes::lemma_range(8);
        bytes::lemma_le_round_trip(v.shape[i] as nat, 8);
    }
    assert(shape_in(raw) =~= v.shape);
    assert(raw.skip((4 + 8 * n) as int) =~= bytes::word_bytes(v.data));
    assert(value_in::<W>(raw) =~= v);
}

/// A directory and a file name as one path.
pub open spec fn joined_path(dir: Seq<char>, name: Seq<char>) -> Seq<char> {
    if dir.len() == 0 {
        name
    } else if dir.last() == '/' {
        dir + name
    } else {
        dir + "/"@ + name
    }
}

/// The path of the file with a number.
pub open spec fn tensor_path(dir: Seq<char>, id: nat) -> Seq<char> {
    joined_path(dir, "tensor_"@ + text::digits(id) + ".bin"@)
}

/// What is appended to the name is appended to the path.
proof fn lemma_joined(dir: Seq<char>, head: Seq<char>, name: Seq<char>)
    ensures
        joined_path(dir, head + name) == joined_path(dir, head) + name,
{
    if dir.len() == 0 {
        assert(joined_path(dir, head + name) =~= joined_path(dir, head) + name);
    } else if dir.last() == '/' {
        assert(joined_path(dir, head + name) =~= joined_path(dir, head) + name);
    } else {
        assert(joined_path(dir, head + name) =~= joined_path(dir, head) + name);
    }
}

/// Files with different numbers have different paths.
#[verifier::spinoff_prover]
pub proof fn lemma_paths_differ(dir: Seq<char>, a: nat, b: nat)
    requires
        a != b,
    ensures
        tensor_path(dir, a) != tensor_path(dir, b),
{
    text::lemma_digits_differ(a, b);
    let (x, y, end) = (text::digits(a), text::digits(b), ".bin"@);
    let h = joined_path(dir, "tensor_"@);
    lemma_joined(dir, "tensor_"@, x);
    lemma_joined(dir, "tensor_"@ + x, end);
    lemma_joined(dir, "tensor_"@, y);
    lemma_joined(dir, "tensor_"@ + y, end);
    let (p, q) = (h + x + end, h + y + end);
    if p == q {
        assert(p.len() == h.len() + x.len() + end.len());
        assert(q.len() == h.len() + y.len() + end.len());
        let n = h.len() as int;
        assert(p.subrange(n, n + x.len()) =~= x);
        assert(q.subrange(n, n + y.len()) =~= y);
    }
}

fn path_for(dir: &str, id: u64) -> (r: String)
    ensures
        r@ == tensor_path(dir@, id as nat),
{
    let mut name: Vec<char> = Vec::new();
    push_text(&mut name, "tensor_");
    push_decimal(&mut name, id);
    push_text(&mut name, ".bin");
    assert(name@ =~= "tensor_"@ + text::digits(id as nat) + ".bin"@);
    let mut out = chars_of(dir);
    if out.len() > 0 && out[out.len() - 1] != '/' {
        push_text(&mut out, "/");
    }
    text::push_chars(&mut out, &name);
    assert(out@ =~= tensor_path(dir@, id as nat));
    string_of(&out)
}

/// A tensor in a file.
#[derive(Debug, Clone)]
pub struct SsdTensor {
    pub path: String,
    pub shape: Vec<usize>,
    pub numel: usize,
    /// The size of the file.
    pub bytes: usize,
}

/// What has to be done on the disk.
#[derive(Debug, Clone)]
pub enum DiskAction {
    /// Create a file with these bytes.
    Write { path: String, bytes: Vec<u8> },
    /// Remove a file.
    Remove { path: String },
}

/// An action as texts and bytes.
#[verifier::ext_equal]
pub enum Deed {
    Write { path: Seq<char>, bytes: Seq<u8> },
    Remove { path: Seq<char> },
}

impl View for DiskAction {
    type V = Deed;

    open spec fn view(&self) -> Deed {
        match *self {
            DiskAction::Write { path, bytes } => Deed::Write { path: path@, bytes: bytes@ },
            DiskAction::Remove { path } => Deed::Remove { path: path@ },
        }
    }
}

/// Actions as texts and bytes.
pub open spec fn deeds(v: Seq<DiskAction>) -> Seq<Deed> {
    Seq::new(v.len(), |i: int| v[i]@)
}

/// The files of a disk after an action.
pub open spec fn after_deed(disk: Map<Seq<char>, Seq<u8>>, d: Deed) -> Map<Seq<char>, Seq<u8>> {
    match d {
        Deed::Write { path, bytes } => disk.insert(path, bytes),
        Deed::Remove { path } => disk.remove(path),
    }
}

/// The files of a disk after some actions, one after the other.
pub open spec fn after_deeds(disk: Map<Seq<char>, Seq<u8>>, ds: Seq<Deed>) -> Map<
    Seq<char>,
    Seq<u8>,
>
    decreases ds.len(),
{
    if ds.len() == 0 {
        disk
    } else {
        after_deed(after_deeds(disk, ds.drop_last()), ds.last())
    }
}

proof fn lemma_after_more(disk: Map<Seq<char>, Seq<u8>>, a: Seq<Deed>, b: Seq<Deed>)
    ensures
        after_deeds(disk, a + b) == after_deeds(after_deeds(disk, a), b),
    decreases b.len(),
{
    if b.len() == 0 {
        assert(a + b =~= a);
    } else {
        lemma_after_more(disk, a, b.drop_last());
        assert((a + b).drop_last() =~= a + b.drop_last());
        assert((a + b).last() == b.last());
    }
}

impl SsdTensor {
    /// The handle for a tensor that is to be written, and the bytes of its file.
    pub fn write<W: Word>(tensor: &Tensor<W>, dir: &str, id: u64) -> (r: (Self, Vec<u8>))
        ensures
            r.0.path@ == tensor_path(dir@, id as nat),
            r.0.shape@ == tensor.shape@,
            r.0.numel == tensor.data@.len(),
            r.0.bytes == r.1@.len(),
            r.1@ == file_bytes(tensor@),
    {
        let mut buf: Vec<u8> = Vec::new();
        push_le(&mut buf, tensor.shape.len() as u64 % 0x1_0000_0000, 4);
        let ghost head = buf@;
        assert(tensor.shape@.take(0) =~= Seq::<usize>::empty());
        for i in 0..tensor.shape.len()
            invariant
                buf@ =~= head + shape_bytes(tensor.shape@.take(i as int)),
        {
            assert(tensor.shape@.take(i + 1).drop_last() =~= tensor.shape@.take(i as int));
            push_le(&mut buf, tensor.shape[i] as u64, 8);
        }
        assert(tensor.shape@.take(tensor.shape@.len() as int) =~= tensor.shape@);
        push_words(&mut buf, &tensor.data);
        assert(buf@ =~= file_bytes(tensor@));
        let handle = SsdTensor {
            path: path_for(dir, id),
            shape: copy_slice(&tensor.shape),
            numel: tensor.data.len(),
            bytes: buf.len(),
        };
        (handle, buf)
    }

    /// Whether a file can be read as a tensor.
    pub fn can_load(raw: &[u8]) -> (r: bool)
        ensures
            r == readable(raw@),
    {
        let len: usize = raw.len();
        if len < 4 {
            return false;
        }
        let n: u64 = read_le(raw, 0, 4);
        if (len - 4) as u64 / 8 < n {
            return false;
        }
        let axes: usize = n as usize;
        let mut shape: Vec<usize> = Vec::new();
        let mut volume: usize = 1;
        let mut fits = true;
        for i in 0..axes
            invariant
                len == raw@.len(),
                axes == axes_in(raw@),
                len >= 4 + 8 * axes,
                shape@ =~= shape_in(raw@).take(i as int),
                forall|k: int|
                    0 <= k < i ==> #[trigger] bytes::le_value(
                        raw@.subrange(4 + 8 * k, 12 + 8 * k),
                    ) <= usize::MAX,
                fits == tensor::countable(shape_in(raw@).take(i as int)),
                fits ==> volume == tensor::volume(shape_in(raw@).take(i as int)),
        {
            let d: u64 = read_le(raw, 4 + 8 * i, 8);
            if d > usize::MAX as u64 {
                assert(bytes::le_value(raw@.subrange(4 + 8 * i as int, 12 + 8 * i as int)) == d);
                return false;
            }
            let ghost s = shape_in(raw@).take(i + 1);
            assert(s.drop_last() =~= shape_in(raw@).take(i as int));
            shape.push(d as usize);
            if fits {
                match volume.checked_mul(d as usize) {
                    Some(v) => {
                        volume = v;
                    },
                    None => {
                        fits = false;
                    },
                }
            }
        }
        assert(shape_in(raw@).take(axes as int) =~= shape_in(raw@));
        fits && (len - 4 - 8 * axes) / 4 == volume
    }

    /// The tensor that a file holds.
    pub fn load<W: Word>(raw: &[u8]) -> (r: Result<Tensor<W>, TooShort>)
        requires
            raw@.len() < 4 || readable(raw@),
        ensures
            r is Ok <==> raw@.len() >= 4,
            r matches Ok(t) ==> t.wf() && t@ == value_in::<W>(raw@) && !t.requires_grad
                && t.grad is None,
    {
        let len: usize = raw.len();
        if len < 4 {
            return Err(TooShort);
        }
        let axes: usize = read_le(raw, 0, 4) as usize;
        let mut shape: Vec<usize> = Vec::new();
        for i in 0..axes
            invariant
                len == raw@.len(),
                readable(raw@),
                axes == axes_in(raw@),
                shape@ =~= shape_in(raw@).take(i as int),
        {
            let d: u64 = read_le(raw, 4 + 8 * i, 8);
            shape.push(d as usize);
        }
        assert(shape_in(raw@).take(axes as int) =~= shape_in(raw@));
        let start: usize = 4 + 8 * axes;
        let body = vstd::slice::slice_subrange(raw, start, len);
        assert(body@ =~= raw@.skip(4 + 8 * axes));
        let data: Vec<W> = read_words(body);
        let t = Tensor { data, shape, requires_grad: false, grad: None };
        assert(t@ =~= value_in::<W>(raw@));
        Ok(t)
    }

    /// What removes the file.
    pub fn evict(&self) -> (r: DiskAction)
        ensures
            r@ == (Deed::Remove { path: self.path@ }),
    {
        DiskAction::Remove { path: owned(self.path.as_str()) }
    }

    /// The size of the file.
    pub fn size_bytes(&self) -> (r: usize)
        ensures
            r == self.bytes,
    {
        self.bytes
    }

    pub fn shape(&self) -> (r: &Vec<usize>)
        ensures
            r == self.shape,
    {
        &self.shape
    }

    pub fn path(&self) -> (r: &str)
        ensures
            r@ == self.path@,
    {
        self.path.as_str()
    }
}

// ---- Tensors that move

/// A tensor in memory or on disk.
#[derive(Debug, Clone)]
pub struct TieredTensor<W> {
    /// The tensor, where it is in memory.
    pub ram: Option<Tensor<W>>,
    /// Its file, where it has one.
    pub ssd: Option<SsdTensor>,
    pub tier: MemoryTier,
    /// When it was used last.
    pub last_access: u64,
}

impl<W: Word> TieredTensor<W> {
    /// It is in memory or on disk, and where the tier says; its size can be counted.
    pub open spec fn wf(&self) -> bool {
        &&& self.tier == MemoryTier::Ram || self.tier == MemoryTier::Ssd
        &&& self.tier == MemoryTier::Ram <==> self.ram is Some
        &&& self.tier == MemoryTier::Ssd ==> self.ssd is Some
        &&& self.ram matches Some(t) ==> t.wf() && t.data@.len() * 4 <= usize::MAX
    }

    /// The bytes in memory.
    pub open spec fn ram_bytes(&self) -> int {
        match self.ram {
            Some(t) => (t.data@.len() * 4) as int,
            None => 0,
        }
    }

    /// The bytes on disk, where it is there.
    pub open spec fn ssd_bytes(&self) -> int {
        match (self.tier, self.ssd) {
            (MemoryTier::Ssd, Some(s)) => s.bytes as int,
            _ => 0,
        }
    }

    pub fn from_tensor(tensor: Tensor<W>, now: u64) -> (r: Self)
        requires
            tensor.wf(),
            tensor.data@.len() * 4 <= usize::MAX,
        ensures
            r.wf(),
            r.ram == Some(tensor),
            r.ssd is None,
            r.tier == MemoryTier::Ram,
            r.last_access == now,
    {
        TieredTensor { ram: Some(tensor), ssd: None, tier: MemoryTier::Ram, last_access: now }
    }

    /// Moves the tensor to disk, if it is not there: its file is to be written, and an older one
    /// to be removed.
    pub fn offload_to_ssd(&mut self, dir: &str, id: u64) -> (r: Vec<DiskAction>)
        requires
            old(self).wf(),
        ensures
            final(self).wf(),
            final(self).tier == MemoryTier::Ssd,
            final(self).last_access == old(self).last_access,
            old(self).tier == MemoryTier::Ssd ==> *final(self) == *old(self) && deeds(r@)
                == Seq::<Deed>::empty(),
            old(self).tier == MemoryTier::Ram ==> moved_out(
                *old(self),
                *final(self),
                deeds(r@),
                dir@,
                id as nat,
            ),
    {
        let mut actions: Vec<DiskAction> = Vec::new();
        assert(deeds(actions@) =~= Seq::<Deed>::empty());
        if self.tier == MemoryTier::Ssd {
            return actions;
        }
        if let Some(tensor) = self.ram.take() {
            let (ssd, bytes) = SsdTensor::write(&tensor, dir, id);
            let ghost bv = bytes@;
            let path = owned(ssd.path.as_str());
            actions.push(DiskAction::Write { path, bytes });
            if let Some(old_file) = &self.ssd {
                let action = old_file.evict();
                actions.push(action);
            }
            self.ssd = Some(ssd);
            self.tier = MemoryTier::Ssd;
            proof {
                assert(deeds(actions@) =~= out_deeds(*old(self), bv, dir@, id as nat));
            }
        }
        actions
    }

    /// Whether the tensor has to be read from disk before it can be used, and from which file.
    pub fn needs_load(&self) -> (r: Option<&str>)
        requires
            self.wf(),
        ensures
            match r {
                Some(p) => self.tier == MemoryTier::Ssd && p@ == self.ssd.unwrap().path@,
                None => self.tier == MemoryTier::Ram,
            },
    {
        if self.tier == MemoryTier::Ram {
            return None;
        }
        match &self.ssd {
            Some(s) => Some(s.path.as_str()),
            None => None,
        }
    }

    /// Takes the tensor that was read from disk, unless it is in memory already. The file stays.
    pub fn load_to_ram(&mut self, tensor: Tensor<W>, now: u64)
        requires
            old(self).wf(),
            tensor.wf(),
            tensor.data@.len() * 4 <= usize::MAX,
        ensures
            final(self).wf(),
            final(self).tier == MemoryTier::Ram,
            final(self).ssd == old(self).ssd,
            old(self).tier == MemoryTier::Ram ==> *final(self) == *old(self),
            old(self).tier == MemoryTier::Ssd ==> final(self).ram == Some(tensor) && final(self).last_access == now,
    {
        if self.tier == MemoryTier::Ram {
            return ;
        }
        self.ram = Some(tensor);
        self.tier = MemoryTier::Ram;
        self.last_access = now;
    }

    /// The tensor, which has to be in memory; it counts as used.
    pub fn get(&mut self, now: u64) -> (r: Tensor<W>)
        requires
            old(self).wf(),
            old(self).tier == MemoryTier::Ram,
        ensures
            final(self).wf(),
            final(self).ram == old(self).ram,
            final(self).ssd == old(self).ssd,
            final(self).tier == old(self).tier,
            final(self).last_access == now,
            r@ == old(self).ram.unwrap()@,
            r.requires_grad == old(self).ram.unwrap().requires_grad,
    {
        self.last_access = now;
        match &self.ram {
            Some(t) => Tensor {
                data: copy_slice(&t.data),
                shape: copy_slice(&t.shape),
                requires_grad: t.requires_grad,
                grad: None,
            },
            None => Tensor {
                data: Vec::new(),
                shape: Vec::new(),
                requires_grad: false,
                grad: None,
            },
        }
    }

    pub fn tier(&self) -> (r: MemoryTier)
        ensures
            r == self.tier,
    {
        self.tier
    }

    /// The size in memory, or that of the file.
    pub fn size_bytes(&self) -> (r: usize)
        requires
            self.wf(),
        ensures
            r == self.ram_bytes() + self.ssd_bytes(),
    {
        match &self.ram {
            Some(t) => t.data.len() * 4,
            None => match &self.ssd {
                Some(s) => s.bytes,
                None => 0,
            },
        }
    }

    /// The time since it was used last.
    pub fn age(&self, now: u64) -> (r: u64)
        requires
            self.last_access <= now,
        ensures
            r == now - self.last_access,
    {
        now - self.last_access
    }
}

/// What moving a tensor out asks of the disk.
pub open spec fn out_deeds<W: Word>(
    old: TieredTensor<W>,
    content: Seq<u8>,
    dir: Seq<char>,
    id: nat,
) -> Seq<Deed> {
    let write = seq![Deed::Write { path: tensor_path(dir, id), bytes: content }];
    match old.ssd {
        Some(s) => write.push(Deed::Remove { path: s.path@ }),
        None => write,
    }
}

/// A tensor left memory for the file with a number.
pub open spec fn went_out<W: Word>(
    old: TieredTensor<W>,
    new: TieredTensor<W>,
    dir: Seq<char>,
    id: nat,
) -> bool {
    let t = old.ram.unwrap();
    &&& new.ram is None
    &&& new.tier == MemoryTier::Ssd
    &&& new.last_access == old.last_access
    &&& new.ssd matches Some(s) && s.path@ == tensor_path(dir, id) && s.shape@ == t.shape@
        && s.numel == t.data@.len() && s.bytes == file_bytes(t@).len()
}

/// A tensor was moved out of memory.
pub open spec fn moved_out<W: Word>(
    old: TieredTensor<W>,
    new: TieredTensor<W>,
    done: Seq<Deed>,
    dir: Seq<char>,
    id: nat,
) -> bool {
    &&& went_out(old, new, dir, id)
    &&& done == out_deeds(old, file_bytes(old.ram.unwrap()@), dir, id)
}

// ---- The store

/// What the choice of tensors goes by.
pub struct Slot {
    pub resident: bool,
    /// The bytes in memory.
    pub bytes: int,
    pub last_access: u64,
}

/// The bytes of a slot that are in memory.
pub open spec fn weight(s: Slot) -> int {
    if s.resident {
        s.bytes
    } else {
        0
    }
}

/// The bytes in memory of the first `n` slots.
pub open spec fn usage(slots: Seq<Slot>, n: int) -> int
    decreases n,
{
    if n <= 0 {
        0
    } else {
        usage(slots, n - 1) + weight(slots[n - 1])
    }
}

/// How many of the first `n` slots are in memory.
pub open spec fn residents(slots: Seq<Slot>, n: int) -> nat
    decreases n,
{
    if n <= 0 {
        0
    } else {
        residents(slots, n - 1) + (if slots[n - 1].resident {
            1nat
        } else {
            0
        })
    }
}

/// Of the first `n` slots, the one in memory that was not used for the longest time; of several,
/// the first. Minus one where none is in memory.
pub open spec fn coldest(slots: Seq<Slot>, n: int) -> int
    decreases n,
{
    if n <= 0 {
        -1
    } else {
        let c = coldest(slots, n - 1);
        if slots[n - 1].resident && (c < 0 || slots[n - 1].last_access < slots[c].last_access) {
            n - 1
        } else {
            c
        }
    }
}

/// The slot out of memory.
pub open spec fn put_out(s: Slot) -> Slot {
    Slot { resident: false, bytes: 0, ..s }
}

proof fn lemma_coldest(slots: Seq<Slot>, n: int)
    requires
        0 <= n <= slots.len(),
    ensures
        -1 <= coldest(slots, n) < n,
        coldest(slots, n) >= 0 ==> slots[coldest(slots, n)].resident,
        coldest(slots, n) >= 0 ==> forall|j: int|
            0 <= j < n && (#[trigger] slots[j]).resident ==> slots[coldest(slots, n)].last_access
                <= slots[j].last_access,
        coldest(slots, n) < 0 ==> forall|j: int| 0 <= j < n ==> !(#[trigger] slots[j]).resident,
    decreases n,
{
    if n > 0 {
        lemma_coldest(slots, n - 1);
    }
}

/// What is used after one of the slots changed.
pub proof fn lemma_usage_update(slots: Seq<Slot>, c: int, s: Slot, n: int)
    requires
        0 <= c < slots.len(),
        0 <= n <= slots.len(),
    ensures
        usage(slots.update(c, s), n) == usage(slots, n) + (if c < n {
            weight(s) - weight(slots[c])
        } else {
            0
        }),
        residents(slots.update(c, s), n) == residents(slots, n) + (if c < n {
            (if s.resident {
                1int
            } else {
                0
            }) - (if slots[c].resident {
                1int
            } else {
                0
            })
        } else {
            0
        }),
    decreases n,
{
    if n > 0 {
        lemma_usage_update(slots, c, s, n - 1);
    }
}

/// How much may be in memory.
pub struct Limits {
    /// The bytes; zero is no limit.
    pub bytes: int,
    /// The number of slots.
    pub count: int,
}

/// No more is in memory than may be.
pub open spec fn fits(slots: Seq<Slot>, limits: Limits) -> bool {
    let n = slots.len() as int;
    &&& limits.bytes == 0 || usage(slots, n) <= limits.bytes
    &&& residents(slots, n) <= limits.count
}

/// The slots after the coldest were put out of memory, one by one, until no more is in memory than
/// may be or nothing is left to put out.
pub open spec fn evicted(slots: Seq<Slot>, limits: Limits) -> Seq<Slot>
    decreases residents(slots, slots.len() as int),
{
    let n = slots.len() as int;
    let c = coldest(slots, n);
    if fits(slots, limits) || c < 0 || c >= n || !slots[c].resident {
        slots
    } else {
        proof {
            lemma_usage_update(slots, c, put_out(slots[c]), n);
        }
        evicted(slots.update(c, put_out(slots[c])), limits)
    }
}

/// The slots that are put out of memory, in the order in which they are.
pub open spec fn eviction_order(slots: Seq<Slot>, limits: Limits) -> Seq<int>
    decreases residents(slots, slots.len() as int),
{
    let n = slots.len() as int;
    let c = coldest(slots, n);
    if fits(slots, limits) || c < 0 || c >= n || !slots[c].resident {
        Seq::empty()
    } else {
        proof {
            lemma_usage_update(slots, c, put_out(slots[c]), n);
        }
        seq![c] + eviction_order(slots.update(c, put_out(slots[c])), limits)
    }
}

/// As many leave memory as the order names.
pub proof fn lemma_eviction_count(slots: Seq<Slot>, limits: Limits)
    ensures
        eviction_order(slots, limits).len() + residents(
            evicted(slots, limits),
            slots.len() as int,
        ) == residents(slots, slots.len() as int),
    decreases residents(slots, slots.len() as int),
{
    let n = slots.len() as int;
    let c = coldest(slots, n);
    if !(fits(slots, limits) || c < 0 || c >= n || !slots[c].resident) {
        lemma_usage_update(slots, c, put_out(slots[c]), n);
        lemma_eviction_count(slots.update(c, put_out(slots[c])), limits);
    }
}

/// The slots in memory among the first `n`.
pub open spec fn resident_places(slots: Seq<Slot>, n: int) -> Seq<int>
    decreases n,
{
    if n <= 0 {
        Seq::empty()
    } else if slots[n - 1].resident {
        resident_places(slots, n - 1).push(n - 1)
    } else {
        resident_places(slots, n - 1)
    }
}

proof fn lemma_resident_places(slots: Seq<Slot>, n: int)
    ensures
        resident_places(slots, n).len() == residents(slots, n),
        forall|k: int|
            0 <= k < resident_places(slots, n).len() ==> 0 <= #[trigger] resident_places(
                slots,
                n,
            )[k] < n,
    decreases n,
{
    if n > 0 {
        lemma_resident_places(slots, n - 1);
    }
}

/// Putting slots out of memory changes nothing else of them.
pub proof fn lemma_evicted_keeps(slots: Seq<Slot>, limits: Limits)
    ensures
        evicted(slots, limits).len() == slots.len(),
        forall|i: int|
            0 <= i < slots.len() ==> (#[trigger] evicted(slots, limits)[i]) == slots[i]
                || evicted(slots, limits)[i] == put_out(slots[i]),
    decreases residents(slots, slots.len() as int),
{
    let n = slots.len() as int;
    let c = coldest(slots, n);
    if !(fits(slots, limits) || c < 0 || c >= n || !slots[c].resident) {
        lemma_usage_update(slots, c, put_out(slots[c]), n);
        lemma_evicted_keeps(slots.update(c, put_out(slots[c])), limits);
    }
}

/// After putting out, no more is in memory than may be: the bytes keep to their limit or nothing
/// is left, and the slots keep to their number.
pub proof fn lemma_limits_are_kept(slots: Seq<Slot>, limits: Limits)
    requires
        limits.bytes >= 0,
        limits.count >= 0,
    ensures
        ({
            let e = evicted(slots, limits);
            let n = e.len() as int;
            &&& limits.bytes == 0 || usage(e, n) <= limits.bytes || forall|i: int|
                0 <= i < n ==> !(#[trigger] e[i]).resident
            &&& residents(e, n) <= limits.count
        }),
    decreases residents(slots, slots.len() as int),
{
    let n = slots.len() as int;
    let c = coldest(slots, n);
    lemma_coldest(slots, n);
    let e = evicted(slots, limits);
    if !(fits(slots, limits) || c < 0) {
        let next = slots.update(c, put_out(slots[c]));
        lemma_usage_update(slots, c, put_out(slots[c]), n);
        lemma_limits_are_kept(next, limits);
        assert(e == evicted(next, limits));
    } else {
        assert(e == slots);
        if c < 0 {
            lemma_nothing_resident(slots, n);
        }
    }
}

/// What was put out had not been used for at least as long as what stayed.
pub proof fn lemma_coldest_go_first(slots: Seq<Slot>, limits: Limits, i: int, j: int)
    requires
        0 <= i < slots.len(),
        0 <= j < slots.len(),
        slots[i].resident,
        !evicted(slots, limits)[i].resident,
        evicted(slots, limits)[j].resident,
    ensures
        slots[i].last_access <= slots[j].last_access,
    decreases residents(slots, slots.len() as int),
{
    let n = slots.len() as int;
    let c = coldest(slots, n);
    lemma_coldest(slots, n);
    if !(fits(slots, limits) || c < 0 || c >= n || !slots[c].resident) {
        let next = slots.update(c, put_out(slots[c]));
        lemma_usage_update(slots, c, put_out(slots[c]), n);
        lemma_evicted_keeps(next, limits);
        assert(evicted(next, limits)[j] == next[j] || evicted(next, limits)[j] == put_out(next[j]));
        if i != c {
            lemma_coldest_go_first(next, limits, i, j);
        } else {
            assert(slots[j].resident);
        }
    }
}

/// What the choice goes by for a tensor.
pub open spec fn slot_of<W: Word>(t: TieredTensor<W>) -> Slot {
    Slot {
        resident: t.tier == MemoryTier::Ram,
        bytes: t.ram_bytes(),
        last_access: t.last_access,
    }
}

/// What the choice goes by for all tensors.
pub open spec fn slots_of<W: Word>(entries: Seq<(String, TieredTensor<W>)>) -> Seq<Slot> {
    Seq::new(entries.len(), |i: int| slot_of(entries[i].1))
}

/// The bytes on disk of the first `n` tensors.
pub open spec fn disk_usage<W: Word>(entries: Seq<(String, TieredTensor<W>)>, n: int) -> int
    decreases n,
{
    if n <= 0 {
        0
    } else {
        disk_usage(entries, n - 1) + entries[n - 1].1.ssd_bytes()
    }
}

/// What moving tensors out asks of the disk: each goes to the file with the next number.
pub open spec fn out_run<W: Word>(
    e: Seq<(String, TieredTensor<W>)>,
    order: Seq<int>,
    dir: Seq<char>,
    from: nat,
) -> Seq<Deed>
    decreases order.len(),
{
    if order.len() == 0 {
        Seq::empty()
    } else {
        let t = e[order.last()].1;
        out_run(e, order.drop_last(), dir, from) + out_deeds(
            t,
            file_bytes(t.ram.unwrap()@),
            dir,
            (from + order.len() - 1) as nat,
        )
    }
}

/// The tensors at some places left memory, each for the file with the next number; the others
/// are as they were.
pub open spec fn moved<W: Word>(
    old: Seq<(String, TieredTensor<W>)>,
    new: Seq<(String, TieredTensor<W>)>,
    order: Seq<int>,
    dir: Seq<char>,
    from: nat,
) -> bool {
    &&& new.len() == old.len()
    &&& order.no_duplicates()
    &&& forall|k: int|
        0 <= k < order.len() ==> 0 <= #[trigger] order[k] < old.len() && old[order[k]].1.tier
            == MemoryTier::Ram
    &&& forall|i: int| 0 <= i < old.len() ==> (#[trigger] new[i]).0 == old[i].0
    &&& forall|i: int|
        0 <= i < old.len() && !order.contains(i) ==> (#[trigger] new[i]) == old[i]
    &&& forall|k: int|
        0 <= k < order.len() ==> went_out(
            old[#[trigger] order[k]].1,
            new[order[k]].1,
            dir,
            (from + k) as nat,
        )
}

/// A path is that of a file with a number below `next`.
pub open spec fn numbered(path: Seq<char>, dir: Seq<char>, next: nat) -> bool {
    exists|id: nat| id < next && path == #[trigger] tensor_path(dir, id)
}

/// Each file of a tensor has a number below `next`, and no two tensors share a file.
pub open spec fn files_apart<W: Word>(
    e: Seq<(String, TieredTensor<W>)>,
    dir: Seq<char>,
    next: nat,
) -> bool {
    &&& forall|i: int|
        0 <= i < e.len() ==> ((#[trigger] e[i]).1.ssd matches Some(s) ==> numbered(
            s.path@,
            dir,
            next,
        ))
    &&& forall|i: int, j: int|
        0 <= i < j < e.len() && (#[trigger] e[i]).1.ssd is Some && (#[trigger] e[j]).1.ssd is Some
            ==> e[i].1.ssd.unwrap().path@ != e[j].1.ssd.unwrap().path@
}

proof fn lemma_new_file<W: Word>(
    old: Seq<(String, TieredTensor<W>)>,
    new: Seq<(String, TieredTensor<W>)>,
    c: int,
    dir: Seq<char>,
    next: nat,
)
    requires
        files_apart(old, dir, next),
        moved(old, new, seq![c], dir, next),
    ensures
        files_apart(new, dir, next + 1),
{
    let order = seq![c];
    assert(order[0] == c);
    assert(went_out(old[c].1, new[c].1, dir, next));
    assert forall|i: int| 0 <= i < new.len() implies ((#[trigger] new[i]).1.ssd matches Some(s)
        ==> numbered(s.path@, dir, next + 1)) by {
        if i == c {
            assert(new[c].1.ssd.unwrap().path@ == tensor_path(dir, next));
        } else {
            assert(!order.contains(i));
            assert(new[i] == old[i]);
            if old[i].1.ssd is Some {
                let path = old[i].1.ssd.unwrap().path@;
                assert(numbered(path, dir, next));
                let id = choose|id: nat| id < next && path == #[trigger] tensor_path(dir, id);
                assert(id < next + 1 && path == tensor_path(dir, id));
            }
        }
    }
    assert forall|i: int| 0 <= i < new.len() && i != c && (#[trigger] new[i]).1.ssd is Some implies
        new[i].1.ssd.unwrap().path@ != tensor_path(dir, next) by {
        assert(!order.contains(i));
        assert(new[i] == old[i]);
        let path = old[i].1.ssd.unwrap().path@;
        assert(numbered(path, dir, next));
        let id = choose|id: nat| id < next && path == #[trigger] tensor_path(dir, id);
        lemma_paths_differ(dir, id, next);
    }
    assert forall|i: int, j: int|
        0 <= i < j < new.len() && (#[trigger] new[i]).1.ssd is Some && (
        #[trigger] new[j]).1.ssd is Some implies new[i].1.ssd.unwrap().path@
        != new[j].1.ssd.unwrap().path@ by {
        if i != c && j != c {
            assert(!order.contains(i) && !order.contains(j));
            assert(new[i] == old[i] && new[j] == old[j]);
        }
    }
}

/// One more tensor leaves memory.
proof fn lemma_moved_step<W: Word>(
    e: Seq<(String, TieredTensor<W>)>,
    mid: Seq<(String, TieredTensor<W>)>,
    new: Seq<(String, TieredTensor<W>)>,
    order: Seq<int>,
    c: int,
    dir: Seq<char>,
    from: nat,
)
    requires
        moved(e, mid, order, dir, from),
        moved(mid, new, seq![c], dir, from + order.len()),
    ensures
        moved(e, new, order.push(c), dir, from),
        out_run(e, order.push(c), dir, from) == out_run(e, order, dir, from) + out_run(
            mid,
            seq![c],
            dir,
            from + order.len(),
        ),
        mid[c] == e[c],
{
    let one = seq![c];
    let all = order.push(c);
    assert(one[0] == c);
    assert(mid[c].1.tier == MemoryTier::Ram);
    if order.contains(c) {
        let k = choose|k: int| 0 <= k < order.len() && order[k] == c;
        assert(went_out(e[order[k]].1, mid[order[k]].1, dir, (from + k) as nat));
    }
    assert(mid[c] == e[c]);
    assert(all.drop_last() =~= order);
    assert(one.drop_last() =~= Seq::<int>::empty());
    reveal_with_fuel(out_run, 2);
    assert(out_run(mid, one.drop_last(), dir, from + order.len()) =~= Seq::<Deed>::empty());
    assert(out_run(e, all, dir, from) =~= out_run(e, order, dir, from) + out_run(
        mid,
        one,
        dir,
        from + order.len(),
    ));
    assert forall|i: int| 0 <= i < e.len() && !all.contains(i) implies (#[trigger] new[i])
        == e[i] by {
        if order.contains(i) {
            let k = choose|k: int| 0 <= k < order.len() && order[k] == i;
            assert(all[k] == i);
        }
        if one.contains(i) {
            assert(all[order.len() as int] == i);
        }
        assert(mid[i] == e[i]);
    }
    assert forall|k: int| 0 <= k < all.len() implies went_out(
        e[#[trigger] all[k]].1,
        new[all[k]].1,
        dir,
        (from + k) as nat,
    ) by {
        if k < order.len() {
            assert(all[k] == order[k]);
            assert(order[k] != c) by {
                assert(!order.contains(c));
            }
            assert(!one.contains(order[k]));
            assert(new[order[k]] == mid[order[k]]);
        } else {
            assert(went_out(mid[one[0]].1, new[one[0]].1, dir, from + order.len()));
        }
    }
    assert forall|i: int| 0 <= i < e.len() implies (#[trigger] new[i]).0 == e[i].0 by {
        assert(mid[i].0 == e[i].0);
    }
}

/// Tensors under names, of which as many stay in memory as the budget and the number of hot ones
/// allow.
#[derive(Debug, Clone)]
pub struct TieredStore<W> {
    pub config: OffloadConfig,
    pub tensors: Table<TieredTensor<W>>,
    /// The bytes in memory.
    pub ram_usage: usize,
    /// The number of the next file.
    pub next_file: u64,
}

impl<W: Word> TieredStore<W> {
    /// No name occurs twice, each tensor is where its tier says, the bytes in memory are those of
    /// the tensors there, and each file has a number of its own below the next one.
    pub open spec fn wf(&self) -> bool {
        &&& self.tensors.wf()
        &&& forall|i: int|
            0 <= i < self.tensors.entries@.len() ==> (#[trigger] self.tensors.entries@[i]).1.wf()
        &&& self.ram_usage == usage(
            slots_of(self.tensors.entries@),
            self.tensors.entries@.len() as int,
        )
        &&& files_apart(self.tensors.entries@, self.config.ssd_dir@, self.next_file as nat)
    }

    /// There are numbers for the files of all tensors in memory, and of one more.
    pub open spec fn has_numbers(&self) -> bool {
        self.next_file + residents(self.slots(), self.slots().len() as int) < u64::MAX
    }

    /// What it takes for tensors to have left memory for new files.
    pub open spec fn put_away(
        &self,
        new: &Self,
        mid: Seq<(String, TieredTensor<W>)>,
        order: Seq<int>,
    ) -> bool {
        &&& moved(mid, new.tensors.entries@, order, self.config.ssd_dir@, self.next_file as nat)
        &&& new.next_file == self.next_file + order.len()
        &&& new.config == self.config
    }

    /// What putting tensors away asks of the disk.
    pub open spec fn away_deeds(
        &self,
        mid: Seq<(String, TieredTensor<W>)>,
        order: Seq<int>,
    ) -> Seq<Deed> {
        out_run(mid, order, self.config.ssd_dir@, self.next_file as nat)
    }

    pub open spec fn slots(&self) -> Seq<Slot> {
        slots_of(self.tensors.entries@)
    }

    pub fn new(config: OffloadConfig) -> (r: Self)
        ensures
            r.wf(),
            r.config == config,
            r.tensors@ == Map::<Seq<char>, TieredTensor<W>>::empty(),
            r.slots() == Seq::<Slot>::empty(),
            r.ram_usage == 0,
            r.next_file == 0,
    {
        let r = TieredStore { config, tensors: Table::new(), ram_usage: 0, next_file: 0 };
        assert(r.tensors.entries@.len() == r.tensors.names().len());
        assert(r.slots() =~= Seq::<Slot>::empty());
        r
    }

    /// Raises the number of the next file. Stores that share a directory share a count: what
    /// one of them has used, another goes on from.
    pub fn number_from(&mut self, count: u64)
        requires
            old(self).wf(),
        ensures
            final(self).wf(),
            final(self).next_file == (if old(self).next_file < count {
                count
            } else {
                old(self).next_file
            }),
            final(self).tensors == old(self).tensors,
            final(self).config == old(self).config,
            final(self).ram_usage == old(self).ram_usage,
    {
        if self.next_file < count {
            let ghost (e, dir, n) = (
                self.tensors.entries@,
                self.config.ssd_dir@,
                self.next_file as nat,
            );
            self.next_file = count;
            proof {
                lemma_numbers_grow(e, dir, n, count as nat);
            }
        }
    }

    /// Moves the tensor at a position to disk.
    fn offload_at(&mut self, c: usize) -> (r: Vec<DiskAction>)
        requires
            old(self).wf(),
            c < old(self).tensors.entries@.len(),
            old(self).next_file < u64::MAX,
        ensures
            final(self).wf(),
            final(self).slots() == old(self).slots().update(
                c as int,
                put_out(slot_of(old(self).tensors.entries@[c as int].1)),
            ),
            ({
                let e = old(self).tensors.entries@;
                let order = if e[c as int].1.tier == MemoryTier::Ram {
                    seq![c as int]
                } else {
                    Seq::<int>::empty()
                };
                &&& old(self).put_away(final(self), e, order)
                &&& deeds(r@) == old(self).away_deeds(e, order)
            }),
            final(self).tensors.entries@[c as int].1.tier == MemoryTier::Ssd,
    {
        let ghost before = self.tensors.entries@;
        let ghost n = before.len() as int;
        assert(before[c as int].1.wf());
        if self.tensors.entries[c].1.tier() != MemoryTier::Ram {
            let none: Vec<DiskAction> = Vec::new();
            proof {
                let order = Seq::<int>::empty();
                assert(deeds(none@) =~= self.away_deeds(before, order));
                assert(slots_of(before) =~= slots_of(before).update(
                    c as int,
                    put_out(slot_of(before[c as int].1)),
                ));
                assert(moved(
                    before,
                    before,
                    order,
                    self.config.ssd_dir@,
                    self.next_file as nat,
                ));
            }
            return none;
        }
        let ghost from = self.next_file as nat;
        let id: u64 = next_id(&mut self.next_file);
        let size: usize = self.tensors.entries[c].1.size_bytes();
        proof {
            lemma_usage_update(slots_of(before), c as int, put_out(slot_of(before[c as int].1)), n);
            lemma_usage_nonneg(before, n);
            lemma_weight_below(before, c as int, n);
        }
        let actions = self.tensors.entries[c].1.offload_to_ssd(self.config.ssd_dir.as_str(), id);
        self.ram_usage = self.ram_usage - size;
        proof {
            let after = self.tensors.entries@;
            assert(after =~= before.update(c as int, (before[c as int].0, after[c as int].1)));
            assert forall|a: int, b: int| 0 <= a < b < after.len() implies (
            #[trigger] after[a]).0@ != (#[trigger] after[b]).0@ by {
                assert(before[a].0@ != before[b].0@);
            }
            assert forall|i: int| 0 <= i < after.len() implies (#[trigger] after[i]).1.wf() by {
                if i != c {
                    assert(before[i].1.wf());
                }
            }
            assert(slots_of(after) =~= slots_of(before).update(
                c as int,
                put_out(slot_of(before[c as int].1)),
            ));
            let order = seq![c as int];
            let dir = self.config.ssd_dir@;
            assert forall|i: int| 0 <= i < before.len() && !order.contains(i) implies (
            #[trigger] after[i]) == before[i] by {
                assert(order[0] == c);
            }
            assert(moved(before, after, order, dir, from));
            reveal_with_fuel(out_run, 2);
            assert(order.drop_last() =~= Seq::<int>::empty());
            assert(deeds(actions@) =~= out_run(before, order, dir, from));
            lemma_new_file(before, after, c as int, dir, from);
        }
        actions
    }

    /// Whether more is in memory than may be.
    fn is_over(&self) -> (r: bool)
        requires
            self.wf(),
        ensures
            r == !fits(self.slots(), self.config.limits()),
    {
        let budget: usize = self.config.ram_budget_bytes;
        let (ram, _) = self.tier_counts();
        budget > 0 && self.ram_usage > budget || ram > self.config.hot_cache_size
    }

    /// Moves the coldest tensors to disk until no more is in memory than may be.
    fn maybe_evict(&mut self) -> (r: Vec<DiskAction>)
        requires
            old(self).wf(),
            old(self).next_file + residents(
                old(self).slots(),
                old(self).slots().len() as int,
            ) <= u64::MAX,
        ensures
            final(self).wf(),
            final(self).slots() == evicted(old(self).slots(), old(self).config.limits()),
            ({
                let e = old(self).tensors.entries@;
                let order = eviction_order(old(self).slots(), old(self).config.limits());
                &&& old(self).put_away(final(self), e, order)
                &&& deeds(r@) == old(self).away_deeds(e, order)
            }),
    {
        let mut actions: Vec<DiskAction> = Vec::new();
        let ghost limits = self.config.limits();
        let ghost first = self.tensors.entries@;
        let ghost dir = self.config.ssd_dir@;
        let ghost from = self.next_file as nat;
        let ghost mut order = Seq::<int>::empty();
        proof {
            assert(deeds(actions@) =~= out_run(first, order, dir, from));
            assert(moved(first, first, order, dir, from));
        }
        let ghost target = evicted(self.slots(), limits);
        let ghost whole = eviction_order(self.slots(), limits);
        let n: usize = self.tensors.entries.len();
        assert(whole =~= order + eviction_order(self.slots(), limits));
        while self.is_over()
            invariant
                self.wf(),
                limits == self.config.limits(),
                self.config == old(self).config,
                dir == self.config.ssd_dir@,
                n == self.tensors.entries@.len(),
                self.next_file == from + order.len(),
                self.next_file + residents(self.slots(), n as int) <= u64::MAX,
                target == evicted(self.slots(), limits),
                whole == order + eviction_order(self.slots(), limits),
                moved(first, self.tensors.entries@, order, dir, from),
                deeds(actions@) == out_run(first, order, dir, from),
            ensures
                self.slots() == target,
                whole == order,
            decreases residents(self.slots(), n as int),
        {
            let ghost slots = self.slots();
            let mut found: Option<usize> = None;
            for i in 0..n
                invariant
                    n == self.tensors.entries@.len(),
                    slots == self.slots(),
                    coldest(slots, i as int) == (match found {
                        Some(c) => c as int,
                        None => -1,
                    }),
                    found matches Some(c) ==> c < i,
            {
                let t = &self.tensors.entries[i].1;
                assert(slots[i as int] == slot_of(*t));
                if t.tier() == MemoryTier::Ram {
                    let colder = match found {
                        Some(c) => t.last_access < self.tensors.entries[c].1.last_access,
                        None => true,
                    };
                    if colder {
                        found = Some(i);
                    }
                }
            }
            match found {
                None => {
                    assert(whole =~= order);
                    break ;
                },
                Some(c) => {
                    proof {
                        lemma_coldest(slots, n as int);
                        lemma_resident_one(slots, c as int, n as int);
                        assert(self.tensors.entries@[c as int].1.wf());
                        lemma_usage_update(
                            slots,
                            c as int,
                            put_out(slot_of(self.tensors.entries@[c as int].1)),
                            n as int,
                        );
                    }
                    let ghost mid = self.tensors.entries@;
                    let ghost done = deeds(actions@);
                    assert(slots[c as int] == slot_of(mid[c as int].1));
                    let mut more = self.offload_at(c);
                    let ghost mv = deeds(more@);
                    actions.append(&mut more);
                    proof {
                        assert(deeds(actions@) =~= done + mv);
                        lemma_moved_step(
                            first,
                            mid,
                            self.tensors.entries@,
                            order,
                            c as int,
                            dir,
                            from,
                        );
                        let rest = eviction_order(self.slots(), limits);
                        assert(order.push(c as int) + rest =~= order + (seq![c as int] + rest));
                        order = order.push(c as int);
                    }
                },
            }
        }
        proof {
            if fits(self.slots(), limits) {
                assert(whole =~= order);
            }
        }
        actions
    }

    /// Puts a tensor into the store, in memory, in place of one with the same name; then the
    /// coldest leave memory until no more is in memory than may be.
    pub fn insert(&mut self, name: &str, tensor: Tensor<W>, now: u64) -> (r: Vec<DiskAction>)
        requires
            old(self).wf(),
            tensor.wf(),
            old(self).ram_usage + tensor.data@.len() * 4 <= usize::MAX,
            old(self).has_numbers(),
        ensures
            final(self).wf(),
            exists|mid: Seq<(String, TieredTensor<W>)>| #[trigger]
                placed(*old(self), mid, name@, tensor, now) && room_made(
                    *old(self),
                    *final(self),
                    mid,
                    deeds(r@),
                    dropped_file(*old(self), name@),
                ),
    {
        let mut actions: Vec<DiskAction> = Vec::new();
        assert(deeds(actions@) =~= Seq::<Deed>::empty());
        let ghost before = self.tensors;
        let ghost (dir, next) = (self.config.ssd_dir@, self.next_file as nat);
        let ghost n = before.entries@.len() as int;
        let size: usize = tensor.data.len() * 4;
        let ghost t = tensor;
        match self.tensors.find(name) {
            Some(i) => {
                assert(before.entries@[i as int].1.wf());
                let in_ram = self.tensors.entries[i].1.tier() == MemoryTier::Ram;
                let old_size: usize = self.tensors.entries[i].1.size_bytes();
                proof {
                    lemma_usage_nonneg(before.entries@, n);
                    lemma_weight_below(before.entries@, i as int, n);
                }
                if in_ram {
                    self.ram_usage = self.ram_usage - old_size;
                }
                if let Some(s) = &self.tensors.entries[i].1.ssd {
                    let action = s.evict();
                    actions.push(action);
                }
                assert(deeds(actions@) =~= dropped_file(*old(self), name@));
                let fresh = TieredTensor::from_tensor(tensor, now);
                let key = owned(name);
                self.tensors.entries.set(i, (key, fresh));
                self.ram_usage = self.ram_usage + size;
                proof {
                    let after = self.tensors.entries@;
                    lemma_usage_update(
                        slots_of(before.entries@),
                        i as int,
                        slot_of(after[i as int].1),
                        n,
                    );
                    assert(slots_of(after) =~= slots_of(before.entries@).update(
                        i as int,
                        slot_of(after[i as int].1),
                    ));
                    assert forall|a: int, b: int| 0 <= a < b < after.len() implies (
                    #[trigger] after[a]).0@ != (#[trigger] after[b]).0@ by {
                        assert(before.entries@[a].0@ != before.entries@[b].0@);
                    }
                    assert forall|k: int| 0 <= k < after.len() implies (
                    #[trigger] after[k]).1.wf() by {
                        if k != i {
                            assert(before.entries@[k].1.wf());
                        }
                    }
                    assert(placed(*old(self), after, name@, t, now)) by {
                        assert(table::at_name(before.entries@, name@, i as int));
                    }
                    assert(files_apart(after, dir, next)) by {
                        lemma_fewer_files(before.entries@, after, dir, next);
                    }
                }
            },
            None => {
                let fresh = TieredTensor::from_tensor(tensor, now);
                let key = owned(name);
                self.tensors.entries.push((key, fresh));
                self.ram_usage = self.ram_usage + size;
                proof {
                    let after = self.tensors.entries@;
                    assert(slots_of(after) =~= slots_of(before.entries@).push(
                        slot_of(after[n].1),
                    ));
                    lemma_usage_prefix(slots_of(before.entries@), slots_of(after), n);
                    assert forall|a: int, b: int| 0 <= a < b < after.len() implies (
                    #[trigger] after[a]).0@ != (#[trigger] after[b]).0@ by {
                        if b < n {
                            assert(before.entries@[a].0@ != before.entries@[b].0@);
                        } else {
                            before.lemma_at(a);
                        }
                    }
                    assert forall|k: int| 0 <= k < after.len() implies (
                    #[trigger] after[k]).1.wf() by {
                        if k != n {
                            assert(before.entries@[k].1.wf());
                        }
                    }
                    assert(placed(*old(self), after, name@, t, now));
                    assert(files_apart(after, dir, next)) by {
                        assert forall|k: int| 0 <= k < n implies after[k] == before.entries@[k] by {
                        }
                        assert(after[n].1.ssd is None);
                    }
                    lemma_usage_same(slots_of(before.entries@), slots_of(after), n);
                    assert(deeds(actions@) =~= dropped_file(*old(self), name@));
                }
            },
        }
        let ghost mid = self.tensors.entries@;
        let ghost done = deeds(actions@);
        let mut more = self.maybe_evict();
        let ghost mv = deeds(more@);
        actions.append(&mut more);
        proof {
            assert(deeds(actions@) =~= done + mv);
            assert(room_made(*old(self), *self, mid, deeds(actions@), done));
        }
        actions
    }

    /// The file that has to be read before a tensor can be had.
    pub fn needs_load(&self, name: &str) -> (r: Option<&str>)
        requires
            self.wf(),
        ensures
            match r {
                Some(p) => self.tensors@.dom().contains(name@) && self.tensors@[name@].tier
                    == MemoryTier::Ssd && p@ == self.tensors@[name@].ssd.unwrap().path@,
                None => self.tensors@.dom().contains(name@) ==> self.tensors@[name@].tier
                    == MemoryTier::Ram,
            },
    {
        match self.tensors.find(name) {
            Some(i) => {
                assert(self.tensors.entries@[i as int].1.wf());
                self.tensors.entries[i].1.needs_load()
            },
            None => None,
        }
    }

    /// The tensor under a name, which counts as used; where it was on disk, what was read from its
    /// file is given. Then the coldest leave memory until no more is in memory than may be.
    pub fn get(&mut self, name: &str, loaded: Option<Tensor<W>>, now: u64) -> (r: Option<
        (Tensor<W>, Vec<DiskAction>),
    >)
        requires
            old(self).wf(),
            old(self).tensors@.dom().contains(name@) && old(self).tensors@[name@].tier
                == MemoryTier::Ssd ==> (loaded matches Some(t) && t.wf() && old(self).ram_usage
                + t.data@.len() * 4 <= usize::MAX),
            old(self).has_numbers(),
        ensures
            final(self).wf(),
            final(self).config == old(self).config,
            r is Some <==> old(self).tensors@.dom().contains(name@),
            r is None ==> *final(self) == *old(self),
            r matches Some(p) ==> {
                &&& p.0@ == fetched(old(self).tensors@[name@], loaded)@
                &&& exists|mid: Seq<(String, TieredTensor<W>)>| #[trigger]
                    used(*old(self), mid, name@, loaded, now) && room_made(
                        *old(self),
                        *final(self),
                        mid,
                        deeds(p.1@),
                        Seq::empty(),
                    )
            },
    {
        let ghost before = self.tensors;
        let ghost n = before.entries@.len() as int;
        let i: usize = match self.tensors.find(name) {
            Some(i) => i,
            None => {
                return None;
            },
        };
        assert(before.entries@[i as int].1.wf());
        proof {
            lemma_usage_nonneg(before.entries@, n);
        }
        let on_disk = self.tensors.entries[i].1.tier() == MemoryTier::Ssd;
        let ghost lt = loaded;
        if on_disk {
            match loaded {
                Some(t) => {
                    let size: usize = t.data.len() * 4;
                    self.tensors.entries[i].1.load_to_ram(t, now);
                    self.ram_usage = self.ram_usage + size;
                },
                None => {},
            }
        }
        let out = self.tensors.entries[i].1.get(now);
        proof {
            let after = self.tensors.entries@;
            assert(after =~= before.entries@.update(
                i as int,
                (before.entries@[i as int].0, after[i as int].1),
            ));
            lemma_usage_update(
                slots_of(before.entries@),
                i as int,
                slot_of(after[i as int].1),
                n,
            );
            assert(slots_of(after) =~= slots_of(before.entries@).update(
                i as int,
                slot_of(after[i as int].1),
            ));
            assert forall|a: int, b: int| 0 <= a < b < after.len() implies (
            #[trigger] after[a]).0@ != (#[trigger] after[b]).0@ by {
                assert(before.entries@[a].0@ != before.entries@[b].0@);
            }
            assert forall|k: int| 0 <= k < after.len() implies (#[trigger] after[k]).1.wf() by {
                if k != i {
                    assert(before.entries@[k].1.wf());
                }
            }
            assert(used(*old(self), after, name@, lt, now)) by {
                assert(table::at_name(before.entries@, name@, i as int));
            }
            assert(files_apart(after, self.config.ssd_dir@, self.next_file as nat)) by {
                lemma_fewer_files(
                    before.entries@,
                    after,
                    self.config.ssd_dir@,
                    self.next_file as nat,
                );
            }
        }
        let ghost mid = self.tensors.entries@;
        let actions = self.maybe_evict();
        proof {
            let none = Seq::<Deed>::empty();
            assert(none + deeds(actions@) =~= deeds(actions@));
            assert(room_made(*old(self), *self, mid, deeds(actions@), none));
        }
        Some((out, actions))
    }

    /// Moves a tensor to disk.
    pub fn offload(&mut self, name: &str) -> (r: Vec<DiskAction>)
        requires
            old(self).wf(),
            old(self).next_file < u64::MAX,
        ensures
            final(self).wf(),
            exists|order: Seq<int>| #[trigger]
                places_under(*old(self), name@, order) && old(self).put_away(
                    final(self),
                    old(self).tensors.entries@,
                    order,
                ) && deeds(r@) == old(self).away_deeds(old(self).tensors.entries@, order),
            forall|i: int|
                0 <= i < old(self).tensors.entries@.len() ==> (
                #[trigger] final(self).tensors.entries@[i]).1.tier == (if old(self).tensors.entries@[i].0@ == name@ {
                    MemoryTier::Ssd
                } else {
                    old(self).tensors.entries@[i].1.tier
                }),
    {
        match self.tensors.find(name) {
            Some(i) => {
                let ghost before = self.tensors.entries@;
                let actions = self.offload_at(i);
                assert forall|k: int| 0 <= k < before.len() && k != i implies (
                #[trigger] before[k]).0@ != name@ by {
                    if k < i {
                        assert(before[k].0@ != before[i as int].0@);
                    } else {
                        assert(before[i as int].0@ != before[k].0@);
                    }
                }
                proof {
                    let order = if before[i as int].1.tier == MemoryTier::Ram {
                        seq![i as int]
                    } else {
                        Seq::<int>::empty()
                    };
                    assert forall|k: int| #[trigger] order.contains(k) <==> 0 <= k < before.len()
                        && before[k].0@ == name@ && before[k].1.tier == MemoryTier::Ram by {
                        if order.len() > 0 {
                            assert(order[0] == i);
                        }
                    }
                    assert(places_under(*old(self), name@, order));
                    assert forall|k: int| 0 <= k < before.len() implies (
                    #[trigger] self.tensors.entries@[k]).1.tier == (if before[k].0@ == name@ {
                        MemoryTier::Ssd
                    } else {
                        before[k].1.tier
                    }) by {
                        assert(order.contains(k) ==> k == i);
                    }
                }
                actions
            },
            None => {
                let none: Vec<DiskAction> = Vec::new();
                proof {
                    assert forall|k: int| 0 <= k < self.tensors.entries@.len() implies (
                    #[trigger] self.tensors.entries@[k]).0@ != name@ by {
                        self.tensors.lemma_at(k);
                    }
                    let order = Seq::<int>::empty();
                    let e = self.tensors.entries@;
                    assert(places_under(*old(self), name@, order));
                    assert(moved(e, e, order, self.config.ssd_dir@, self.next_file as nat));
                    assert(deeds(none@) =~= self.away_deeds(e, order));
                    assert(old(self).put_away(self, e, order));
                }
                none
            },
        }
    }

    /// Moves all tensors to disk.
    pub fn offload_all(&mut self) -> (r: Vec<DiskAction>)
        requires
            old(self).wf(),
            old(self).has_numbers(),
        ensures
            final(self).wf(),
            ({
                let e = old(self).tensors.entries@;
                let order = resident_places(old(self).slots(), e.len() as int);
                &&& old(self).put_away(final(self), e, order)
                &&& deeds(r@) == old(self).away_deeds(e, order)
            }),
            forall|i: int|
                0 <= i < final(self).tensors.entries@.len() ==> (
                #[trigger] final(self).tensors.entries@[i]).1.tier == MemoryTier::Ssd,
            final(self).ram_usage == 0,
    {
        let mut actions: Vec<DiskAction> = Vec::new();
        let ghost first = self.tensors.entries@;
        let ghost slots = self.slots();
        let ghost dir = self.config.ssd_dir@;
        let ghost from = self.next_file as nat;
        let ghost mut order = Seq::<int>::empty();
        proof {
            assert(deeds(actions@) =~= out_run(first, order, dir, from));
            assert(moved(first, first, order, dir, from));
        }
        let n: usize = self.tensors.entries.len();
        for c in 0..n
            invariant
                self.wf(),
                self.config == old(self).config,
                dir == self.config.ssd_dir@,
                n == self.tensors.entries@.len(),
                n == first.len(),
                slots == slots_of(first),
                from + residents(slots, n as int) < u64::MAX,
                order == resident_places(slots, c as int),
                self.next_file == from + order.len(),
                moved(first, self.tensors.entries@, order, dir, from),
                deeds(actions@) == out_run(first, order, dir, from),
                forall|i: int|
                    0 <= i < c ==> (#[trigger] self.tensors.entries@[i]).1.tier
                        == MemoryTier::Ssd,
        {
            let ghost mid = self.tensors.entries@;
            let ghost done = deeds(actions@);
            proof {
                lemma_resident_places(slots, c as int);
                lemma_resident_bound(slots, c as int, n as int);
                if order.contains(c as int) {
                    let k = choose|k: int| 0 <= k < order.len() && order[k] == c;
                    assert(order[k] < c);
                }
                assert(mid[c as int] == first[c as int]);
                assert(slots[c as int] == slot_of(first[c as int].1));
            }
            let mut more = self.offload_at(c);
            let ghost mv = deeds(more@);
            actions.append(&mut more);
            proof {
                assert(deeds(actions@) =~= done + mv);
                if first[c as int].1.tier == MemoryTier::Ram {
                    lemma_moved_step(
                        first,
                        mid,
                        self.tensors.entries@,
                        order,
                        c as int,
                        dir,
                        from,
                    );
                    order = order.push(c as int);
                } else {
                    let none = Seq::<int>::empty();
                    assert forall|i: int| 0 <= i < mid.len() implies (
                    #[trigger] self.tensors.entries@[i]) == mid[i] by {
                        assert(!none.contains(i));
                    }
                    assert(self.tensors.entries@ =~= mid);
                    assert(deeds(actions@) =~= done);
                }
                assert forall|i: int| 0 <= i < c + 1 implies (
                #[trigger] self.tensors.entries@[i]).1.tier == MemoryTier::Ssd by {
                    if i < c {
                        assert(mid[i].1.tier == MemoryTier::Ssd);
                        assert(!seq![c as int].contains(i)) by {
                            assert(seq![c as int][0] == c);
                        }
                    }
                }
            }
        }
        proof {
            lemma_nothing_resident(self.slots(), n as int);
        }
        actions
    }

    /// The files that have to be read before all tensors can be in memory.
    pub fn pending(&self) -> (r: Vec<String>)
        requires
            self.wf(),
        ensures
            text::texts(r@) == pending_paths(
                self.tensors.entries@,
                self.tensors.entries@.len() as int,
            ),
    {
        let mut out: Vec<String> = Vec::new();
        assert(text::texts(out@) =~= Seq::<Seq<char>>::empty());
        for i in 0..self.tensors.entries.len()
            invariant
                self.wf(),
                text::texts(out@) =~= pending_paths(self.tensors.entries@, i as int),
        {
            assert(self.tensors.entries@[i as int].1.wf());
            if let Some(p) = self.tensors.entries[i].1.needs_load() {
                let ghost before = text::texts(out@);
                let s = owned(p);
                out.push(s);
                assert(text::texts(out@) =~= before.push(s@));
            }
        }
        out
    }

    /// Takes what was read from the files of the tensors on disk, in their order.
    pub fn load_all(&mut self, loaded: Vec<Tensor<W>>, now: u64)
        requires
            old(self).wf(),
            loaded@.len() == pending_paths(
                old(self).tensors.entries@,
                old(self).tensors.entries@.len() as int,
            ).len(),
            forall|i: int| 0 <= i < loaded@.len() ==> (#[trigger] loaded@[i]).wf(),
            old(self).ram_usage + bytes_of(loaded@, loaded@.len() as int) <= usize::MAX,
        ensures
            final(self).wf(),
            final(self).config == old(self).config,
            final(self).next_file == old(self).next_file,
            final(self).tensors.entries@.len() == old(self).tensors.entries@.len(),
            forall|i: int|
                0 <= i < final(self).tensors.entries@.len() ==> is_back(
                    old(self).tensors.entries@,
                    (#[trigger] final(self).tensors.entries@[i]),
                    i,
                    loaded@,
                    now,
                ),
            final(self).ram_usage == old(self).ram_usage + bytes_of(
                loaded@,
                loaded@.len() as int,
            ),
    {
        let ghost first = self.tensors.entries@;
        let n: usize = self.tensors.entries.len();
        let count: usize = loaded.len();
        let mut k: usize = 0;
        for i in 0..n
            invariant
                self.wf(),
                self.config == old(self).config,
                self.next_file == old(self).next_file,
                n == self.tensors.entries@.len(),
                first == old(self).tensors.entries@,
                first.len() == n,
                count == loaded@.len(),
                loaded@.len() == pending_paths(first, n as int).len(),
                forall|j: int| 0 <= j < loaded@.len() ==> (#[trigger] loaded@[j]).wf(),
                old(self).ram_usage + bytes_of(loaded@, loaded@.len() as int) <= usize::MAX,
                k == pending_paths(first, i as int).len(),
                self.ram_usage == old(self).ram_usage + bytes_of(loaded@, k as int),
                forall|j: int|
                    0 <= j < i ==> is_back(
                        first,
                        (#[trigger] self.tensors.entries@[j]),
                        j,
                        loaded@,
                        now,
                    ),
                forall|j: int| i <= j < n ==> (#[trigger] self.tensors.entries@[j]) == first[j],
        {
            let ghost before = self.tensors.entries@;
            assert(before[i as int] == first[i as int]);
            assert(before[i as int].1.wf());
            proof {
                lemma_pending_grows(first, i + 1, n as int);
            }
            if self.tensors.entries[i].1.tier() == MemoryTier::Ssd {
                proof {
                    lemma_bytes_grow(loaded@, k + 1, loaded@.len() as int);
                    lemma_bytes_grow(loaded@, 0, k as int);
                    assert(loaded@[k as int].wf());
                }
                let t = Tensor {
                    data: copy_slice(&loaded[k].data),
                    shape: copy_slice(&loaded[k].shape),
                    requires_grad: loaded[k].requires_grad,
                    grad: None,
                };
                let size: usize = t.data.len() * 4;
                self.tensors.entries[i].1.load_to_ram(t, now);
                self.ram_usage = self.ram_usage + size;
                k = k + 1;
            }
            proof {
                let after = self.tensors.entries@;
                assert(after =~= before.update(i as int, (before[i as int].0, after[i as int].1)));
                lemma_usage_update(
                    slots_of(before),
                    i as int,
                    slot_of(after[i as int].1),
                    n as int,
                );
                assert(slots_of(after) =~= slots_of(before).update(
                    i as int,
                    slot_of(after[i as int].1),
                ));
                assert forall|a: int, b: int| 0 <= a < b < after.len() implies (
                #[trigger] after[a]).0@ != (#[trigger] after[b]).0@ by {
                    assert(before[a].0@ != before[b].0@);
                }
                assert forall|j: int| 0 <= j < after.len() implies (
                #[trigger] after[j]).1.wf() by {
                    if j != i {
                        assert(before[j].1.wf());
                    }
                }
                lemma_fewer_files(before, after, self.config.ssd_dir@, self.next_file as nat);
                assert forall|j: int| 0 <= j < i + 1 implies is_back(
                    first,
                    (#[trigger] after[j]),
                    j,
                    loaded@,
                    now,
                ) by {
                    if j < i {
                        assert(after[j] == before[j]);
                        assert(is_back(first, before[j], j, loaded@, now));
                    }
                }
            }
        }
    }

    /// What removes the files of all tensors, once the store is no longer used.
    pub fn cleanup(&self) -> (r: Vec<DiskAction>)
        ensures
            deeds(r@) == file_removals(
                self.tensors.entries@,
                self.tensors.entries@.len() as int,
            ),
    {
        let mut out: Vec<DiskAction> = Vec::new();
        assert(deeds(out@) =~= Seq::<Deed>::empty());
        for i in 0..self.tensors.entries.len()
            invariant
                deeds(out@) =~= file_removals(self.tensors.entries@, i as int),
        {
            if let Some(s) = &self.tensors.entries[i].1.ssd {
                let ghost before = deeds(out@);
                let action = s.evict();
                out.push(action);
                assert(deeds(out@) =~= before.push(action@));
            }
        }
        out
    }

    /// The bytes in memory.
    pub fn ram_usage(&self) -> (r: usize)
        requires
            self.wf(),
        ensures
            r == usage(self.slots(), self.slots().len() as int),
    {
        self.ram_usage
    }

    /// How many tensors are in memory, and how many on disk.
    pub fn tier_counts(&self) -> (r: (usize, usize))
        requires
            self.wf(),
        ensures
            r.0 == residents(self.slots(), self.slots().len() as int),
            r.0 + r.1 == self.tensors.entries@.len(),
    {
        let mut ram: usize = 0;
        let mut ssd: usize = 0;
        let n: usize = self.tensors.entries.len();
        for i in 0..n
            invariant
                self.wf(),
                n == self.tensors.entries@.len(),
                ram == residents(self.slots(), i as int),
                ram + ssd == i,
        {
            assert(self.tensors.entries@[i as int].1.wf());
            match self.tensors.entries[i].1.tier() {
                MemoryTier::Ram => {
                    ram = ram + 1;
                },
                MemoryTier::Ssd => {
                    ssd = ssd + 1;
                },
                MemoryTier::Gpu => {},
            }
        }
        (ram, ssd)
    }

    /// Whether there are numbers for the files of all tensors in memory, and of one more.
    pub fn can_number(&self) -> (r: bool)
        requires
            self.wf(),
        ensures
            r == self.has_numbers(),
    {
        let (ram, _) = self.tier_counts();
        match self.next_file.checked_add(ram as u64) {
            Some(n) => n < u64::MAX,
            None => false,
        }
    }

    /// The bytes on disk.
    pub fn ssd_usage(&self) -> (r: usize)
        requires
            self.wf(),
            disk_usage(self.tensors.entries@, self.tensors.entries@.len() as int) <= usize::MAX,
        ensures
            r == disk_usage(self.tensors.entries@, self.tensors.entries@.len() as int),
    {
        let n: usize = self.tensors.entries.len();
        let mut total: usize = 0;
        for i in 0..n
            invariant
                self.wf(),
                n == self.tensors.entries@.len(),
                disk_usage(self.tensors.entries@, n as int) <= usize::MAX,
                total == disk_usage(self.tensors.entries@, i as int),
        {
            assert(self.tensors.entries@[i as int].1.wf());
            proof {
                lemma_disk_grows(self.tensors.entries@, i + 1, n as int);
            }
            if self.tensors.entries[i].1.tier() == MemoryTier::Ssd {
                total = total + self.tensors.entries[i].1.size_bytes();
            }
        }
        total
    }
}

/// What asks for the file of a tensor that is replaced to be removed.
pub open spec fn dropped_file<W: Word>(store: TieredStore<W>, name: Seq<char>) -> Seq<Deed> {
    if store.tensors@.dom().contains(name) {
        match store.tensors@[name].ssd {
            Some(s) => seq![Deed::Remove { path: s.path@ }],
            None => Seq::empty(),
        }
    } else {
        Seq::empty()
    }
}

/// The coldest tensors left memory for new files, until no more was in memory than may be; before that, some
/// actions were asked for.
pub open spec fn room_made<W: Word>(
    old: TieredStore<W>,
    new: TieredStore<W>,
    mid: Seq<(String, TieredTensor<W>)>,
    done: Seq<Deed>,
    first: Seq<Deed>,
) -> bool {
    let limits = old.config.limits();
    let order = eviction_order(slots_of(mid), limits);
    &&& new.slots() == evicted(slots_of(mid), limits)
    &&& old.put_away(&new, mid, order)
    &&& done == first + old.away_deeds(mid, order)
}

/// The places of the tensors in memory under a name: one or none.
pub open spec fn places_under<W: Word>(
    store: TieredStore<W>,
    name: Seq<char>,
    order: Seq<int>,
) -> bool {
    let e = store.tensors.entries@;
    &&& order.len() <= 1
    &&& forall|k: int| #[trigger]
        order.contains(k) <==> 0 <= k < e.len() && e[k].0@ == name && e[k].1.tier
            == MemoryTier::Ram
}

/// A tensor that was just put into memory.
pub open spec fn is_fresh<W: Word>(t: TieredTensor<W>, tensor: Tensor<W>, now: u64) -> bool {
    t.ram == Some(tensor) && t.ssd is None && t.tier == MemoryTier::Ram && t.last_access == now
}

/// The tensors with one put under a name.
pub open spec fn placed<W: Word>(
    store: TieredStore<W>,
    mid: Seq<(String, TieredTensor<W>)>,
    name: Seq<char>,
    tensor: Tensor<W>,
    now: u64,
) -> bool {
    let e = store.tensors.entries@;
    if store.tensors@.dom().contains(name) {
        exists|i: int|
            {
                &&& #[trigger] table::at_name(e, name, i)
                &&& mid.len() == e.len()
                &&& mid[i].0@ == name
                &&& is_fresh(mid[i].1, tensor, now)
                &&& forall|j: int| 0 <= j < e.len() && j != i ==> #[trigger] mid[j] == e[j]
            }
    } else {
        &&& mid.len() == e.len() + 1
        &&& mid.last().0@ == name
        &&& is_fresh(mid.last().1, tensor, now)
        &&& forall|j: int| 0 <= j < e.len() ==> #[trigger] mid[j] == e[j]
    }
}

/// The tensor itself: what is in memory, or what was read.
pub open spec fn fetched<W: Word>(t: TieredTensor<W>, loaded: Option<Tensor<W>>) -> Tensor<W> {
    if t.tier == MemoryTier::Ssd {
        loaded.unwrap()
    } else {
        t.ram.unwrap()
    }
}

/// The tensors with the one under a name in memory and used.
pub open spec fn used<W: Word>(
    store: TieredStore<W>,
    mid: Seq<(String, TieredTensor<W>)>,
    name: Seq<char>,
    loaded: Option<Tensor<W>>,
    now: u64,
) -> bool {
    let e = store.tensors.entries@;
    exists|i: int|
        {
            &&& #[trigger] table::at_name(e, name, i)
            &&& mid.len() == e.len()
            &&& mid[i].0 == e[i].0
            &&& mid[i].1.ram == Some(fetched(e[i].1, loaded))
            &&& mid[i].1.ssd == e[i].1.ssd
            &&& mid[i].1.tier == MemoryTier::Ram
            &&& mid[i].1.last_access == now
            &&& forall|j: int| 0 <= j < e.len() && j != i ==> #[trigger] mid[j] == e[j]
        }
}

/// The files of those of the first `n` tensors that are on disk.
pub open spec fn pending_paths<W: Word>(e: Seq<(String, TieredTensor<W>)>, n: int) -> Seq<Seq<char>>
    decreases n,
{
    if n <= 0 {
        Seq::empty()
    } else {
        let rest = pending_paths(e, n - 1);
        if e[n - 1].1.tier == MemoryTier::Ssd {
            rest.push(e[n - 1].1.ssd.unwrap().path@)
        } else {
            rest
        }
    }
}

/// What removes the files of the first `n` tensors.
pub open spec fn file_removals<W: Word>(e: Seq<(String, TieredTensor<W>)>, n: int) -> Seq<Deed>
    decreases n,
{
    if n <= 0 {
        Seq::empty()
    } else {
        match e[n - 1].1.ssd {
            Some(s) => file_removals(e, n - 1).push(Deed::Remove { path: s.path@ }),
            None => file_removals(e, n - 1),
        }
    }
}

/// The bytes of the first `n` tensors in memory.
pub open spec fn bytes_of<W: Word>(v: Seq<Tensor<W>>, n: int) -> int
    decreases n,
{
    if n <= 0 {
        0
    } else {
        bytes_of(v, n - 1) + v[n - 1].data@.len() * 4
    }
}

/// The tensor at a position is in memory again, where it was not.
pub open spec fn is_back<W: Word>(
    first: Seq<(String, TieredTensor<W>)>,
    e: (String, TieredTensor<W>),
    i: int,
    loaded: Seq<Tensor<W>>,
    now: u64,
) -> bool {
    if first[i].1.tier == MemoryTier::Ssd {
        &&& e.0 == first[i].0
        &&& e.1.tier == MemoryTier::Ram
        &&& e.1.ssd == first[i].1.ssd
        &&& e.1.last_access == now
        &&& e.1.ram matches Some(t) && t@ == loaded[pending_paths(first, i).len() as int]@
    } else {
        e == first[i]
    }
}

proof fn lemma_usage_nonneg<W: Word>(e: Seq<(String, TieredTensor<W>)>, n: int)
    requires
        0 <= n <= e.len(),
    ensures
        0 <= usage(slots_of(e), n),
    decreases n,
{
    if n > 0 {
        lemma_usage_nonneg(e, n - 1);
    }
}

proof fn lemma_weight_below<W: Word>(e: Seq<(String, TieredTensor<W>)>, c: int, n: int)
    requires
        0 <= c < n <= e.len(),
    ensures
        weight(slot_of(e[c].1)) <= usage(slots_of(e), n),
    decreases n,
{
    lemma_usage_nonneg(e, n - 1);
    if c < n - 1 {
        lemma_weight_below(e, c, n - 1);
    }
}

proof fn lemma_usage_prefix(a: Seq<Slot>, b: Seq<Slot>, n: int)
    requires
        0 <= n <= a.len(),
        n <= b.len(),
        forall|i: int| 0 <= i < n ==> #[trigger] a[i] == b[i],
    ensures
        usage(a, n) == usage(b, n),
    decreases n,
{
    if n > 0 {
        lemma_usage_prefix(a, b, n - 1);
        assert(a[n - 1] == b[n - 1]);
    }
}

proof fn lemma_nothing_resident(slots: Seq<Slot>, n: int)
    requires
        0 <= n <= slots.len(),
        forall|i: int| 0 <= i < n ==> !(#[trigger] slots[i]).resident,
    ensures
        usage(slots, n) == 0,
        residents(slots, n) == 0,
    decreases n,
{
    if n > 0 {
        lemma_nothing_resident(slots, n - 1);
        assert(!slots[n - 1].resident);
    }
}

proof fn lemma_usage_same(a: Seq<Slot>, b: Seq<Slot>, n: int)
    requires
        0 <= n <= a.len(),
        n <= b.len(),
        forall|i: int| 0 <= i < n ==> #[trigger] a[i] == b[i],
    ensures
        residents(a, n) == residents(b, n),
    decreases n,
{
    if n > 0 {
        lemma_usage_same(a, b, n - 1);
        assert(a[n - 1] == b[n - 1]);
    }
}

proof fn lemma_resident_bound(slots: Seq<Slot>, m: int, n: int)
    requires
        m <= n,
    ensures
        residents(slots, m) <= residents(slots, n),
    decreases n,
{
    if m < n && n > 0 {
        lemma_resident_bound(slots, m, n - 1);
    }
}

proof fn lemma_resident_one(slots: Seq<Slot>, c: int, n: int)
    requires
        0 <= c < n,
        slots[c].resident,
    ensures
        residents(slots, n) >= 1,
    decreases n,
{
    if c < n - 1 {
        lemma_resident_one(slots, c, n - 1);
    }
}

proof fn lemma_numbers_grow<W: Word>(
    e: Seq<(String, TieredTensor<W>)>,
    dir: Seq<char>,
    m: nat,
    n: nat,
)
    requires
        files_apart(e, dir, m),
        m <= n,
    ensures
        files_apart(e, dir, n),
{
    assert forall|i: int| 0 <= i < e.len() implies ((#[trigger] e[i]).1.ssd matches Some(s)
        ==> numbered(s.path@, dir, n)) by {
        if e[i].1.ssd is Some {
            let path = e[i].1.ssd.unwrap().path@;
            assert(numbered(path, dir, m));
            let id = choose|id: nat| id < m && path == #[trigger] tensor_path(dir, id);
            assert(id < n && path == tensor_path(dir, id));
        }
    }
}

/// Files stay apart where each tensor has the file that it had, or none.
proof fn lemma_fewer_files<W: Word>(
    old: Seq<(String, TieredTensor<W>)>,
    new: Seq<(String, TieredTensor<W>)>,
    dir: Seq<char>,
    next: nat,
)
    requires
        files_apart(old, dir, next),
        new.len() == old.len(),
        forall|i: int|
            0 <= i < old.len() ==> (#[trigger] new[i]).1.ssd == old[i].1.ssd || new[i].1.ssd is None,
    ensures
        files_apart(new, dir, next),
{
    assert forall|i: int| 0 <= i < new.len() implies ((#[trigger] new[i]).1.ssd matches Some(s)
        ==> numbered(s.path@, dir, next)) by {
        if new[i].1.ssd is Some {
            assert(old[i].1.ssd == new[i].1.ssd);
        }
    }
    assert forall|i: int, j: int|
        0 <= i < j < new.len() && (#[trigger] new[i]).1.ssd is Some && (
        #[trigger] new[j]).1.ssd is Some implies new[i].1.ssd.unwrap().path@
        != new[j].1.ssd.unwrap().path@ by {
        assert(old[i].1.ssd == new[i].1.ssd && old[j].1.ssd == new[j].1.ssd);
    }
}

proof fn lemma_pending_grows<W: Word>(e: Seq<(String, TieredTensor<W>)>, m: int, n: int)
    requires
        m <= n,
    ensures
        pending_paths(e, m).len() <= pending_paths(e, n).len(),
    decreases n,
{
    if m < n && n > 0 {
        lemma_pending_grows(e, m, n - 1);
    }
}

proof fn lemma_bytes_grow<W: Word>(v: Seq<Tensor<W>>, m: int, n: int)
    requires
        m <= n,
    ensures
        0 <= bytes_of(v, m) <= bytes_of(v, n),
    decreases n,
{
    if n > 0 {
        if m < n {
            lemma_bytes_grow(v, m, n - 1);
        } else {
            lemma_bytes_grow(v, m - 1, n - 1);
        }
    }
}

proof fn lemma_disk_grows<W: Word>(e: Seq<(String, TieredTensor<W>)>, m: int, n: int)
    requires
        m <= n,
    ensures
        disk_usage(e, m) <= disk_usage(e, n),
    decreases n,
{
    if m < n && n > 0 {
        lemma_disk_grows(e, m, n - 1);
    }
}

// ---- What was put away comes back

/// A tensor has a value: in memory, or in its file.
pub open spec fn keeps<W: Word>(
    t: TieredTensor<W>,
    v: tensor::Value<W>,
    disk: Map<Seq<char>, Seq<u8>>,
) -> bool {
    if t.tier == MemoryTier::Ram {
        t.ram matches Some(x) && x@ == v
    } else {
        t.ssd matches Some(s) && disk.dom().contains(s.path@) && disk[s.path@] == file_bytes(v)
    }
}

proof fn lemma_out_effect<W: Word>(
    disk: Map<Seq<char>, Seq<u8>>,
    t: TieredTensor<W>,
    content: Seq<u8>,
    dir: Seq<char>,
    id: nat,
)
    ensures
        after_deeds(disk, out_deeds(t, content, dir, id)) == (match t.ssd {
            Some(s) => disk.insert(tensor_path(dir, id), content).remove(s.path@),
            None => disk.insert(tensor_path(dir, id), content),
        }),
{
    let ds = out_deeds(t, content, dir, id);
    reveal_with_fuel(after_deeds, 3);
    if t.ssd is Some {
        assert(ds.drop_last().drop_last() =~= Seq::<Deed>::empty());
    } else {
        assert(ds.drop_last() =~= Seq::<Deed>::empty());
    }
}

/// Putting tensors away leaves every other file as it is: one with a lower number that is not an
/// old file of a tensor that is put away.
pub proof fn lemma_others_stay<W: Word>(
    e: Seq<(String, TieredTensor<W>)>,
    order: Seq<int>,
    dir: Seq<char>,
    from: nat,
    disk: Map<Seq<char>, Seq<u8>>,
    p: Seq<char>,
)
    requires
        disk.dom().contains(p),
        numbered(p, dir, from),
        forall|k: int|
            0 <= k < order.len() ==> (e[#[trigger] order[k]].1.ssd matches Some(s) ==> s.path@ != p),
    ensures
        after_deeds(disk, out_run(e, order, dir, from)).dom().contains(p),
        after_deeds(disk, out_run(e, order, dir, from))[p] == disk[p],
    decreases order.len(),
{
    if order.len() > 0 {
        let f = order.drop_last();
        assert forall|k: int| 0 <= k < f.len() implies (e[#[trigger] f[k]].1.ssd matches Some(s)
            ==> s.path@ != p) by {
            assert(order[k] == f[k]);
        }
        lemma_others_stay(e, f, dir, from, disk, p);
        let t = e[order.last()].1;
        let content = file_bytes(t.ram.unwrap()@);
        let id = (from + order.len() - 1) as nat;
        let run = out_run(e, f, dir, from);
        lemma_after_more(disk, run, out_deeds(t, content, dir, id));
        lemma_out_effect(after_deeds(disk, run), t, content, dir, id);
        let low = choose|low: nat| low < from && p == #[trigger] tensor_path(dir, low);
        lemma_paths_differ(dir, low, id);
        assert(order[order.len() - 1] == order.last());
    }
}

/// After tensors were put away, each of their files holds the bytes of its tensor.
proof fn lemma_run_writes<W: Word>(
    e: Seq<(String, TieredTensor<W>)>,
    order: Seq<int>,
    dir: Seq<char>,
    from: nat,
    disk: Map<Seq<char>, Seq<u8>>,
    k: int,
)
    requires
        files_apart(e, dir, from),
        forall|j: int| 0 <= j < order.len() ==> 0 <= #[trigger] order[j] < e.len(),
        0 <= k < order.len(),
    ensures
        ({
            let after = after_deeds(disk, out_run(e, order, dir, from));
            let p = tensor_path(dir, (from + k) as nat);
            after.dom().contains(p) && after[p] == file_bytes(e[order[k]].1.ram.unwrap()@)
        }),
    decreases order.len(),
{
    let f = order.drop_last();
    let last = order.len() - 1;
    let p = tensor_path(dir, (from + k) as nat);
    assert forall|j: int| 0 <= j < f.len() implies 0 <= #[trigger] f[j] < e.len() by {
        assert(order[j] == f[j]);
    }
    let c = order[last];
    let t = e[c].1;
    let content = file_bytes(t.ram.unwrap()@);
    let id = (from + last) as nat;
    let run = out_run(e, f, dir, from);
    lemma_after_more(disk, run, out_deeds(t, content, dir, id));
    lemma_out_effect(after_deeds(disk, run), t, content, dir, id);
    if t.ssd is Some {
        let q = t.ssd.unwrap().path@;
        assert(e[c].1.ssd is Some);
        assert(numbered(q, dir, from));
        let low = choose|low: nat| low < from && q == #[trigger] tensor_path(dir, low);
        lemma_paths_differ(dir, low, (from + k) as nat);
    }
    if k < last {
        lemma_run_writes(e, f, dir, from, disk, k);
        assert(f[k] == order[k]);
        lemma_paths_differ(dir, (from + k) as nat, id);
    }
}

/// Putting tensors away loses none: each tensor, put away or not, has the value that it had.
pub proof fn lemma_moving_keeps<W: Word>(
    old: Seq<(String, TieredTensor<W>)>,
    new: Seq<(String, TieredTensor<W>)>,
    order: Seq<int>,
    dir: Seq<char>,
    from: nat,
    disk: Map<Seq<char>, Seq<u8>>,
    i: int,
    v: tensor::Value<W>,
)
    requires
        files_apart(old, dir, from),
        moved(old, new, order, dir, from),
        0 <= i < old.len(),
        old[i].1.wf(),
        keeps(old[i].1, v, disk),
    ensures
        keeps(new[i].1, v, after_deeds(disk, out_run(old, order, dir, from))),
{
    if order.contains(i) {
        let k = choose|k: int| 0 <= k < order.len() && order[k] == i;
        lemma_run_writes(old, order, dir, from, disk, k);
        assert(went_out(old[order[k]].1, new[order[k]].1, dir, (from + k) as nat));
        assert(old[order[k]].1.tier == MemoryTier::Ram);
    } else {
        assert(new[i] == old[i]);
        if old[i].1.tier != MemoryTier::Ram {
            let p = old[i].1.ssd.unwrap().path@;
            assert(numbered(p, dir, from));
            assert forall|k: int| 0 <= k < order.len() implies (
            old[#[trigger] order[k]].1.ssd matches Some(s) ==> s.path@ != p) by {
                let j = order[k];
                assert(j != i);
                assert(0 <= j < old.len());
                if old[j].1.ssd is Some {
                    if i < j {
                        assert(old[i].1.ssd.unwrap().path@ != old[j].1.ssd.unwrap().path@);
                    } else {
                        assert(old[j].1.ssd.unwrap().path@ != old[i].1.ssd.unwrap().path@);
                    }
                }
            }
            lemma_others_stay(old, order, dir, from, disk, p);
        }
    }
}

/// Putting a tensor in loses none: under its name there is the new tensor, and every other one has
/// the value that it had, in memory or in a file that is still there.
pub proof fn lemma_insert_keeps<W: Word>(
    old: TieredStore<W>,
    new: TieredStore<W>,
    mid: Seq<(String, TieredTensor<W>)>,
    name: Seq<char>,
    tensor: Tensor<W>,
    now: u64,
    done: Seq<Deed>,
    disk: Map<Seq<char>, Seq<u8>>,
    i: int,
    v: tensor::Value<W>,
)
    requires
        old.wf(),
        tensor.wf(),
        tensor.data@.len() * 4 <= usize::MAX,
        placed(old, mid, name, tensor, now),
        room_made(old, new, mid, done, dropped_file(old, name)),
        0 <= i < mid.len(),
        if mid[i].0@ == name {
            v == tensor@
        } else {
            keeps(old.tensors.entries@[i].1, v, disk)
        },
    ensures
        keeps(new.tensors.entries@[i].1, v, after_deeds(disk, done)),
{
    let e = old.tensors.entries@;
    let (dir, next) = (old.config.ssd_dir@, old.next_file as nat);
    let first = dropped_file(old, name);
    let order = eviction_order(slots_of(mid), old.config.limits());
    let run = out_run(mid, order, dir, next);
    let then = after_deeds(disk, first);
    lemma_after_more(disk, first, run);
    reveal_with_fuel(after_deeds, 2);
    if old.tensors@.dom().contains(name) {
        let at = choose|at: int|
            {
                &&& #[trigger] table::at_name(e, name, at)
                &&& mid.len() == e.len()
                &&& mid[at].0@ == name
                &&& is_fresh(mid[at].1, tensor, now)
                &&& forall|j: int| 0 <= j < e.len() && j != at ==> #[trigger] mid[j] == e[j]
            };
        old.tensors.lemma_at(at);
        assert forall|j: int| 0 <= j < e.len() implies (#[trigger] mid[j]).1.ssd == e[j].1.ssd
            || mid[j].1.ssd is None by {}
        lemma_fewer_files(e, mid, dir, next);
        if i != at {
            assert(mid[i] == e[i]);
            assert(e[i].0@ != e[at].0@) by {
                if i < at {
                    assert(e[i].0@ != e[at].0@);
                } else {
                    assert(e[at].0@ != e[i].0@);
                }
            }
            assert(e[i].1.wf());
            if e[i].1.tier != MemoryTier::Ram && e[at].1.ssd is Some {
                if i < at {
                    assert(e[i].1.ssd.unwrap().path@ != e[at].1.ssd.unwrap().path@);
                } else {
                    assert(e[at].1.ssd.unwrap().path@ != e[i].1.ssd.unwrap().path@);
                }
                assert(first.drop_last() =~= Seq::<Deed>::empty());
                assert(then == disk.remove(e[at].1.ssd.unwrap().path@));
            }
        }
    } else {
        assert(first.len() == 0);
        assert forall|k: int| 0 <= k < e.len() implies (#[trigger] mid[k]) == e[k] by {}
        assert(mid[e.len() as int].1.ssd is None);
        assert(files_apart(mid, dir, next));
        if i < e.len() {
            assert(mid[i] == e[i]);
            old.tensors.lemma_at(i);
            assert(e[i].1.wf());
        }
    }
    assert(keeps(mid[i].1, v, then));
    assert(mid[i].1.wf());
    lemma_moving_keeps(mid, new.tensors.entries@, order, dir, next, then, i, v);
}

/// Using a tensor loses none: where it was on disk and what was read is what its file holds, it and
/// every other one have the values that they had.
pub proof fn lemma_get_keeps<W: Word>(
    old: TieredStore<W>,
    new: TieredStore<W>,
    mid: Seq<(String, TieredTensor<W>)>,
    name: Seq<char>,
    loaded: Option<Tensor<W>>,
    now: u64,
    done: Seq<Deed>,
    disk: Map<Seq<char>, Seq<u8>>,
    i: int,
    v: tensor::Value<W>,
)
    requires
        old.wf(),
        loaded matches Some(t) ==> t.wf() && t.data@.len() * 4 <= usize::MAX,
        used(old, mid, name, loaded, now),
        room_made(old, new, mid, done, Seq::empty()),
        0 <= i < old.tensors.entries@.len(),
        keeps(old.tensors.entries@[i].1, v, disk),
        v.wf(),
        v.shape.len() < 0x1_0000_0000,
        old.tensors.entries@[i].0@ == name && old.tensors.entries@[i].1.tier == MemoryTier::Ssd
            ==> (loaded matches Some(t) && t@ == value_in::<W>(
            disk[old.tensors.entries@[i].1.ssd.unwrap().path@],
        )),
    ensures
        keeps(new.tensors.entries@[i].1, v, after_deeds(disk, done)),
{
    let e = old.tensors.entries@;
    let (dir, next) = (old.config.ssd_dir@, old.next_file as nat);
    let order = eviction_order(slots_of(mid), old.config.limits());
    let run = out_run(mid, order, dir, next);
    let at = choose|at: int|
        {
            &&& #[trigger] table::at_name(e, name, at)
            &&& mid.len() == e.len()
            &&& mid[at].0 == e[at].0
            &&& mid[at].1.ram == Some(fetched(e[at].1, loaded))
            &&& mid[at].1.ssd == e[at].1.ssd
            &&& mid[at].1.tier == MemoryTier::Ram
            &&& mid[at].1.last_access == now
            &&& forall|j: int| 0 <= j < e.len() && j != at ==> #[trigger] mid[j] == e[j]
        };
    assert forall|j: int| 0 <= j < e.len() implies (#[trigger] mid[j]).1.ssd == e[j].1.ssd
        || mid[j].1.ssd is None by {}
    lemma_fewer_files(e, mid, dir, next);
    assert(e[i].1.wf());
    if i == at {
        if e[i].1.tier == MemoryTier::Ssd {
            lemma_file_round_trip(v);
        }
    } else {
        assert(mid[i] == e[i]);
    }
    assert(Seq::<Deed>::empty() + run =~= run);
    lemma_moving_keeps(mid, new.tensors.entries@, order, dir, next, disk, i, v);
}

proof fn lemma_all_pending<W: Word>(e: Seq<(String, TieredTensor<W>)>, n: int)
    requires
        0 <= n <= e.len(),
        forall|i: int| 0 <= i < e.len() ==> (#[trigger] e[i]).1.tier == MemoryTier::Ssd,
    ensures
        pending_paths(e, n).len() == n,
        forall|i: int|
            0 <= i < n ==> #[trigger] pending_paths(e, n)[i] == e[i].1.ssd.unwrap().path@,
    decreases n,
{
    if n > 0 {
        lemma_all_pending(e, n - 1);
        assert(e[n - 1].1.tier == MemoryTier::Ssd);
    }
}

proof fn lemma_same_slots<W: Word>(
    a: Seq<(String, TieredTensor<W>)>,
    b: Seq<(String, TieredTensor<W>)>,
    n: int,
)
    requires
        0 <= n <= a.len(),
        a.len() == b.len(),
        forall|i: int|
            0 <= i < n ==> (#[trigger] b[i]).1.tier == MemoryTier::Ram && a[i].1.tier
                == MemoryTier::Ram && a[i].1.ram_bytes() == b[i].1.ram_bytes(),
    ensures
        usage(slots_of(a), n) == usage(slots_of(b), n),
        residents(slots_of(b), n) == n,
        disk_usage(b, n) == 0,
    decreases n,
{
    if n > 0 {
        lemma_same_slots(a, b, n - 1);
        assert(b[n - 1].1.tier == MemoryTier::Ram);
        assert(slots_of(a)[n - 1] == slot_of(a[n - 1].1));
        assert(slots_of(b)[n - 1] == slot_of(b[n - 1].1));
    }
}

/// What was put away comes back. All tensors are put away, the actions are carried out on a disk,
/// every file that is then pending is read, and what was read is taken back: each file can be
/// read, and each tensor is in memory again with the value that it had.
pub proof fn lemma_put_away_comes_back<W: Word>(
    before: TieredStore<W>,
    away: TieredStore<W>,
    back: TieredStore<W>,
    done: Seq<Deed>,
    disk: Map<Seq<char>, Seq<u8>>,
    loaded: Seq<Tensor<W>>,
    now: u64,
    values: Seq<tensor::Value<W>>,
)
    requires
        before.wf(),
        values.len() == before.tensors.entries@.len(),
        forall|i: int|
            0 <= i < values.len() ==> keeps(
                (#[trigger] before.tensors.entries@[i]).1,
                values[i],
                disk,
            ),
        forall|i: int|
            0 <= i < values.len() ==> (#[trigger] values[i]).wf() && values[i].shape.len()
                < 0x1_0000_0000,
        ({
            let e = before.tensors.entries@;
            let n = e.len() as int;
            let order = resident_places(before.slots(), n);
            let paths = pending_paths(away.tensors.entries@, n);
            let after = after_deeds(disk, done);
            &&& before.put_away(&away, e, order)
            &&& done == before.away_deeds(e, order)
            &&& forall|i: int|
                0 <= i < n ==> (#[trigger] away.tensors.entries@[i]).1.tier == MemoryTier::Ssd
            &&& loaded.len() == paths.len()
            &&& forall|k: int|
                0 <= k < loaded.len() ==> (#[trigger] loaded[k])@ == value_in::<W>(after[paths[k]])
            &&& back.tensors.entries@.len() == n
            &&& forall|i: int|
                0 <= i < n ==> is_back(
                    away.tensors.entries@,
                    (#[trigger] back.tensors.entries@[i]),
                    i,
                    loaded,
                    now,
                )
        }),
    ensures
        ({
            let e = before.tensors.entries@;
            let b = back.tensors.entries@;
            let n = e.len() as int;
            let paths = pending_paths(away.tensors.entries@, n);
            let after = after_deeds(disk, done);
            &&& forall|k: int|
                0 <= k < paths.len() ==> after.dom().contains(#[trigger] paths[k]) && readable(
                    after[paths[k]],
                )
            &&& forall|i: int|
                0 <= i < n ==> (#[trigger] b[i]).0 == e[i].0 && b[i].1.tier == MemoryTier::Ram
                    && (b[i].1.ram matches Some(t) && t@ == values[i])
            &&& residents(back.slots(), n) == n
            &&& disk_usage(b, n) == 0
            &&& before.ram_usage == usage(back.slots(), n) || exists|i: int|
                0 <= i < n && (#[trigger] e[i]).1.tier != MemoryTier::Ram
        }),
{
    let e = before.tensors.entries@;
    let a = away.tensors.entries@;
    let b = back.tensors.entries@;
    let n = e.len() as int;
    let (dir, from) = (before.config.ssd_dir@, before.next_file as nat);
    let order = resident_places(before.slots(), n);
    let paths = pending_paths(a, n);
    let after = after_deeds(disk, done);
    lemma_all_pending(a, n);
    assert forall|i: int| 0 <= i < n implies after.dom().contains(#[trigger] paths[i]) && readable(
        after[paths[i]],
    ) && value_in::<W>(after[paths[i]]) == values[i] by {
        assert(e[i].1.wf());
        assert(keeps(e[i].1, values[i], disk));
        lemma_moving_keeps(e, a, order, dir, from, disk, i, values[i]);
        assert(a[i].1.tier == MemoryTier::Ssd);
        assert(values[i].wf());
        lemma_file_round_trip(values[i]);
    }
    assert forall|i: int| 0 <= i < n implies (#[trigger] b[i]).0 == e[i].0 && b[i].1.tier
        == MemoryTier::Ram && (b[i].1.ram matches Some(t) && t@ == values[i]) by {
        assert(a[i].1.tier == MemoryTier::Ssd);
        assert(is_back(a, b[i], i, loaded, now));
        lemma_all_pending(a, i);
        assert(loaded[i]@ == value_in::<W>(after[paths[i]]));
        assert(a[i].0 == e[i].0);
    }
    assert forall|i: int| 0 <= i < n implies (#[trigger] b[i]).1.tier == MemoryTier::Ram by {}
    lemma_same_slots(b, b, n);
    if forall|i: int| 0 <= i < n ==> (#[trigger] e[i]).1.tier == MemoryTier::Ram {
        assert forall|i: int| 0 <= i < n implies (#[trigger] b[i]).1.tier == MemoryTier::Ram
            && e[i].1.tier == MemoryTier::Ram && e[i].1.ram_bytes() == b[i].1.ram_bytes() by {
            assert(keeps(e[i].1, values[i], disk));
            assert(e[i].1.ram.unwrap()@.data == values[i].data);
            assert(b[i].1.ram.unwrap()@.data == values[i].data);
        }
        lemma_same_slots(e, b, n);
    }
}

// ---- Models whose parameters move

/// A model whose parameters are also kept in a store.
pub struct OffloadModel<W, M> {
    pub model: M,
    pub store: TieredStore<W>,
    /// Whether the parameters were moved out.
    pub offloaded: bool,
}

/// The name of a parameter.
pub open spec fn param_name(i: int) -> Seq<char> {
    "param_"@ + text::digits(i as nat)
}

/// The bytes of the first parameters.
pub open spec fn value_bytes<W>(values: Seq<tensor::Value<W>>, n: int) -> int
    decreases n,
{
    if n <= 0 {
        0
    } else {
        value_bytes(values, n - 1) + values[n - 1].data.len() * 4
    }
}

/// What the choice goes by after the first parameters were put in, one by one.
pub open spec fn filled_slots<W>(
    values: Seq<tensor::Value<W>>,
    limits: Limits,
    now: u64,
    n: int,
) -> Seq<Slot>
    decreases n,
{
    if n <= 0 {
        Seq::empty()
    } else {
        evicted(
            filled_slots(values, limits, now, n - 1).push(
                Slot {
                    resident: true,
                    bytes: (values[n - 1].data.len() * 4) as int,
                    last_access: (now + (n - 1)) as u64,
                },
            ),
            limits,
        )
    }
}

/// The store holds the first parameters under their names, on whatever disk the actions are
/// carried out.
pub open spec fn holds_params<W: Word>(
    store: TieredStore<W>,
    values: Seq<tensor::Value<W>>,
    n: int,
    done: Seq<Deed>,
) -> bool {
    let e = store.tensors.entries@;
    &&& e.len() == n
    &&& forall|i: int| 0 <= i < n ==> (#[trigger] e[i]).0@ == param_name(i)
    &&& forall|i: int, disk: Map<Seq<char>, Seq<u8>>|
        0 <= i < n ==> keeps(
            (#[trigger] e[i]).1,
            values[i],
            #[trigger] after_deeds(disk, done),
        )
}

proof fn lemma_usage_bounded<W: Word>(
    e: Seq<(String, TieredTensor<W>)>,
    values: Seq<tensor::Value<W>>,
    disk: Map<Seq<char>, Seq<u8>>,
    n: int,
)
    requires
        0 <= n <= e.len(),
        forall|i: int|
            0 <= i < n ==> (#[trigger] e[i]).1.wf() && keeps(e[i].1, values[i], disk),
    ensures
        usage(slots_of(e), n) <= value_bytes(values, n),
    decreases n,
{
    if n > 0 {
        lemma_usage_bounded(e, values, disk, n - 1);
        assert(keeps(e[n - 1].1, values[n - 1], disk));
        assert(slots_of(e)[n - 1] == slot_of(e[n - 1].1));
    }
}

proof fn lemma_value_bytes_grow<W>(values: Seq<tensor::Value<W>>, n: int, m: int)
    requires
        0 <= n <= m,
    ensures
        0 <= value_bytes(values, n) <= value_bytes(values, m),
    decreases m,
{
    if n < m {
        lemma_value_bytes_grow(values, n, m - 1);
    } else if n > 0 {
        lemma_value_bytes_grow(values, n - 1, n - 1);
    }
}

proof fn lemma_param_names(i: int, j: int)
    requires
        0 <= i,
        0 <= j,
        i != j,
    ensures
        param_name(i) != param_name(j),
{
    let (a, b) = (text::digits(i as nat), text::digits(j as nat));
    text::lemma_digits_differ(i as nat, j as nat);
    let p = "param_"@;
    assert(param_name(i).skip(p.len() as int) =~= a);
    assert(param_name(j).skip(p.len() as int) =~= b);
}

impl<W: Real + Word, M: Module<W>> OffloadModel<W, M> {
    pub open spec fn wf(&self) -> bool {
        self.model.wf() && self.store.wf()
    }

    /// Puts the parameters into a store, whose files have numbers from `count` on; what is then
    /// to be written comes with it.
    pub fn new(model: M, config: OffloadConfig, now: u64, count: u64) -> (r: (
        Self,
        Vec<DiskAction>,
    ))
        requires
            model.wf(),
            count + model.values().len() <= u64::MAX,
            value_bytes(model.values(), model.values().len() as int) <= usize::MAX,
            now + model.values().len() <= u64::MAX,
        ensures
            r.0.wf(),
            r.0.model == model,
            !r.0.offloaded,
            r.0.store.config == config,
            count <= r.0.store.next_file <= count + model.values().len(),
            r.0.store.slots() == filled_slots(
                model.values(),
                config.limits(),
                now,
                model.values().len() as int,
            ),
            holds_params(
                r.0.store,
                model.values(),
                model.values().len() as int,
                deeds(r.1@),
            ),
    {
        let mut store: TieredStore<W> = TieredStore::new(config);
        store.number_from(count);
        let params = model.parameters();
        let ghost values = model.values();
        let ghost limits = config.limits();
        let n: usize = params.len();
        let mut actions: Vec<DiskAction> = Vec::new();
        assert(store.tensors.entries@.len() == store.slots().len());
        for i in 0..n
            invariant
                n == params@.len(),
                nn::tensors_are(params@, values),
                value_bytes(values, n as int) <= usize::MAX,
                now + n <= u64::MAX,
                count + n <= u64::MAX,
                limits == config.limits(),
                store.wf(),
                store.config == config,
                store.slots() == filled_slots(values, limits, now, i as int),
                holds_params(store, values, i as int, deeds(actions@)),
                store.next_file + residents(store.slots(), i as int) == count + i,
                count <= store.next_file,
        {
            let ghost e = store.tensors.entries@;
            let ghost before = store;
            let ghost done = deeds(actions@);
            proof {
                assert(params@[i as int].wf());
                let some = after_deeds(Map::empty(), done);
                assert forall|k: int| 0 <= k < i implies (#[trigger] e[k]).1.wf() && keeps(
                    e[k].1,
                    values[k],
                    some,
                ) by {}
                lemma_usage_bounded(e, values, some, i as int);
                lemma_value_bytes_grow(values, i + 1, n as int);
                assert forall|k: int| !table::at_name(e, param_name(i as int), k) by {
                    if 0 <= k < i {
                        assert(e[k].0@ == param_name(k));
                        lemma_param_names(i as int, k);
                    }
                }
            }
            let mut name = chars_of("param_");
            push_decimal(&mut name, i as u64);
            let key = string_of(&name);
            let t = params[i].duplicate();
            let mut more = store.insert(key.as_str(), t, now + i as u64);
            let ghost fresh = deeds(more@);
            let ghost had = actions@;
            let ghost own = more@;
            actions.append(&mut more);
            proof {
                let mid = choose|mid: Seq<(String, TieredTensor<W>)>| #[trigger]
                    placed(before, mid, param_name(i as int), t, (now + i) as u64) && room_made(
                        before,
                        store,
                        mid,
                        fresh,
                        dropped_file(before, param_name(i as int)),
                    );
                assert(!before.tensors@.dom().contains(param_name(i as int)));
                let slot = Slot {
                    resident: true,
                    bytes: (values[i as int].data.len() * 4) as int,
                    last_access: (now + i) as u64,
                };
                assert(slots_of(mid) =~= before.slots().push(slot));
                lemma_usage_same(before.slots(), slots_of(mid), i as int);
                lemma_eviction_count(slots_of(mid), limits);
                let all = deeds(actions@);
                assert(all =~= done + fresh);
                let now_e = store.tensors.entries@;
                assert forall|k: int| 0 <= k < i + 1 implies (#[trigger] now_e[k]).0@ == param_name(
                    k,
                ) by {
                    assert(now_e[k].0 == mid[k].0);
                    if k < i {
                        assert(mid[k] == e[k]);
                    }
                }
                assert forall|k: int, disk: Map<Seq<char>, Seq<u8>>| 0 <= k < i + 1 implies keeps(
                    (#[trigger] now_e[k]).1,
                    values[k],
                    #[trigger] after_deeds(disk, all),
                ) by {
                    let then = after_deeds(disk, done);
                    lemma_after_more(disk, done, fresh);
                    if k < i {
                        assert(mid[k] == e[k]);
                        assert(e[k].0@ == param_name(k));
                        lemma_param_names(i as int, k);
                        assert(keeps(e[k].1, values[k], then));
                    }
                    lemma_insert_keeps(
                        before,
                        store,
                        mid,
                        param_name(i as int),
                        t,
                        (now + i) as u64,
                        fresh,
                        then,
                        k,
                        values[k],
                    );
                }
            }
        }
        (OffloadModel { model, store, offloaded: false }, actions)
    }

    /// Moves all parameters to disk.
    pub fn offload(&mut self) -> (r: Vec<DiskAction>)
        requires
            old(self).wf(),
            old(self).store.has_numbers(),
        ensures
            final(self).wf(),
            final(self).model == old(self).model,
            final(self).offloaded,
            final(self).store.ram_usage == 0,
            ({
                let e = old(self).store.tensors.entries@;
                let order = resident_places(old(self).store.slots(), e.len() as int);
                &&& old(self).store.put_away(&final(self).store, e, order)
                &&& deeds(r@) == old(self).store.away_deeds(e, order)
            }),
            forall|i: int|
                0 <= i < final(self).store.tensors.entries@.len() ==> (
                #[trigger] final(self).store.tensors.entries@[i]).1.tier == MemoryTier::Ssd,
    {
        let actions = self.store.offload_all();
        self.offloaded = true;
        actions
    }

    /// What was read from the files of the parameters on disk can be taken back.
    pub open spec fn can_take(&self, loaded: Seq<Tensor<W>>) -> bool {
        &&& loaded.len() == pending_paths(
            self.store.tensors.entries@,
            self.store.tensors.entries@.len() as int,
        ).len()
        &&& forall|i: int| 0 <= i < loaded.len() ==> (#[trigger] loaded[i]).wf()
        &&& self.store.ram_usage + bytes_of(loaded, loaded.len() as int) <= usize::MAX
    }

    /// The parameters are in memory again, where they were not.
    pub open spec fn are_back(&self, new: &Self, loaded: Seq<Tensor<W>>, now: u64) -> bool {
        let (a, b) = (self.store.tensors.entries@, new.store.tensors.entries@);
        &&& a.len() == b.len()
        &&& forall|i: int|
            0 <= i < b.len() ==> is_back(a, (#[trigger] b[i]), i, loaded, now)
    }

    /// Takes what was read from the files of the parameters on disk, in their order.
    pub fn load(&mut self, loaded: Vec<Tensor<W>>, now: u64)
        requires
            old(self).wf(),
            old(self).can_take(loaded@),
        ensures
            final(self).wf(),
            final(self).model == old(self).model,
            !final(self).offloaded,
            final(self).store.config == old(self).store.config,
            old(self).are_back(final(self), loaded@, now),
    {
        self.store.load_all(loaded, now);
        self.offloaded = false;
    }

    /// Applies the model. Where the parameters were moved out, what was read of them is taken
    /// back first; where nothing could be read, the store stays as it is.
    pub fn forward(
        &mut self,
        input: &Tensor<W>,
        loaded: Option<Vec<Tensor<W>>>,
        now: u64,
    ) -> (r: Tensor<W>)
        requires
            old(self).wf(),
            input.wf(),
            old(self).model.accepts(input@),
            old(self).offloaded ==> (loaded matches Some(v) ==> old(self).can_take(v@)),
        ensures
            final(self).wf(),
            final(self).model == old(self).model,
            !final(self).offloaded,
            r.wf(),
            r@ == old(self).model.output(input@),
            match loaded {
                Some(v) if old(self).offloaded => old(self).are_back(final(self), v@, now),
                _ => final(self).store == old(self).store,
            },
    {
        if self.offloaded {
            match loaded {
                Some(v) => {
                    self.load(v, now);
                },
                None => {},
            }
            self.offloaded = false;
        }
        self.model.forward(input)
    }

    /// The bytes in memory.
    pub fn ram_usage(&self) -> (r: usize)
        requires
            self.wf(),
        ensures
            r == usage(self.store.slots(), self.store.slots().len() as int),
    {
        self.store.ram_usage()
    }

    /// The bytes on disk.
    pub fn ssd_usage(&self) -> (r: usize)
        requires
            self.wf(),
            disk_usage(
                self.store.tensors.entries@,
                self.store.tensors.entries@.len() as int,
            ) <= usize::MAX,
        ensures
            r == disk_usage(
                self.store.tensors.entries@,
                self.store.tensors.entries@.len() as int,
            ),
    {
        self.store.ssd_usage()
    }

    /// Where the parameters are, and what they take, in units of 1,048,576 bytes.
    pub fn memory_report(&self) -> (r: String)
        requires
            self.wf(),
            disk_usage(
                self.store.tensors.entries@,
                self.store.tensors.entries@.len() as int,
            ) <= usize::MAX,
        ensures
            ({
                let e = self.store.tensors.entries@;
                let n = e.len() as int;
                let ram = residents(self.store.slots(), n);
                r@ == "OffloadModel memory: "@ + text::digits(n as nat) + " tensors (RAM: "@
                    + text::digits(ram) + ", SSD: "@ + text::digits((n - ram) as nat) + "), RAM: "@
                    + gui::one_place(usage(self.store.slots(), n) as nat, 1_048_576)
                    + " MB, SSD: "@ + gui::one_place(disk_usage(e, n) as nat, 1_048_576) + " MB"@
            }),
    {
        let (ram, ssd) = self.store.tier_counts();
        let count: usize = self.store.tensors.entries.len();
        let mut t = chars_of("OffloadModel memory: ");
        push_decimal(&mut t, count as u64);
        push_text(&mut t, " tensors (RAM: ");
        push_decimal(&mut t, ram as u64);
        push_text(&mut t, ", SSD: ");
        push_decimal(&mut t, ssd as u64);
        push_text(&mut t, "), RAM: ");
        push_one_place(&mut t, self.ram_usage() as u64, 1_048_576);
        push_text(&mut t, " MB, SSD: ");
        push_one_place(&mut t, self.ssd_usage() as u64, 1_048_576);
        push_text(&mut t, " MB");
        string_of(&t)
    }
}

} // verus!
