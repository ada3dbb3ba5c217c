//! What a set that was probed says, and what a commit of one comes to.

use vstd::prelude::*;

use crate::block::BlockDevice;
use crate::codec::{le16, le32, le64, window, zeros};
use crate::error::{BlockError, Error, Result};
use crate::gpt::{array_on, header_in, tails_agree, tails_in, HeaderView};
use crate::gpt_write::geometry::GptGeometry;
use crate::gpt_write::gpt_image;
use crate::gpt_write::plan::{gpt_plan, GptPlanView};
use crate::mbr::{in_use, mbr_plan, table_written, unlisted};
use crate::mutation::{committed, set_on, set_slots, table_of, with_slots, SetView};
use crate::probe::laws::{gpt_sign, lemma_gpt_signature_decides};
use crate::probe::{lba1_on, table_found, PartitionView, TableKind};

verus! {

/// A set that was probed has the kind and the partitions of the table that
/// was found, and the size of the disk.
pub proof fn lemma_set_is_what_was_found(content: Seq<u8>, size: u64)
    ensures
        match set_on(content, size) {
            Ok(s) => table_found(content, size) == Ok::<(TableKind, Seq<PartitionView>), Error>(
                (s.table_kind, s.parts),
            ) && s.disk_size == size,
            Err(e) => match table_found(content, size) {
                Err(why) => e == why,
                Ok((kind, _)) => kind == TableKind::Gpt && e is GptCorrupt,
            },
        },
        table_found(content, size) matches Ok((TableKind::Mbr, _)) ==> set_on(content, size) is Ok,
{
}

/// An MBR set keeps the entries of the first sector that are no volumes, and
/// would make a GPT of 128 entries of 128 bytes at LBA 2.
pub proof fn lemma_loaded_mbr_set(content: Seq<u8>, size: u64, s: SetView)
    requires
        set_on(content, size) == Ok::<SetView, Error>(s),
        s.table_kind == TableKind::Mbr,
    ensures
        content.len() >= 512,
        s.reserved == unlisted(content.subrange(0, 512), 4),
        s.disk_guid == zeros(16),
        s.geometry == (GptGeometry {
            num_entries: 128,
            entry_size: 128,
            entry_lba: 2,
            declared_usable: None,
        }),
        s.tails == Map::<Seq<u8>, Seq<u8>>::empty(),
{
    assert(window(content, 0, 512) =~= content.subrange(0, 512));
}

proof fn lemma_header_of_lba1(content: Seq<u8>, h: HeaderView)
    requires
        content.len() >= 1024,
        header_in(content.subrange(512, 1024)) == Ok::<HeaderView, Error>(h),
    ensures
        h.disk_guid == content.subrange(568, 584),
        h.num_partition_entries == le32(content, 592),
        h.partition_entry_size == le32(content, 596),
        h.partition_entry_lba == le64(content, 584),
        h.first_usable_lba == le64(content, 552),
        h.last_usable_lba == le64(content, 560),
{
    let b = content.subrange(512, 1024);
    crate::gpt::laws::lemma_header_fields(b, h);
    assert(forall|k: int| 0 <= k < 512 ==> b[k] == content[512 + k]);
    assert(b.subrange(56, 72) =~= content.subrange(568, 584));
    assert(le16(b, 80) == le16(content, 592) && le16(b, 82) == le16(content, 594));
    assert(le16(b, 84) == le16(content, 596) && le16(b, 86) == le16(content, 598));
    assert(le16(b, 72) == le16(content, 584) && le16(b, 74) == le16(content, 586));
    assert(le16(b, 76) == le16(content, 588) && le16(b, 78) == le16(content, 590));
    assert(le16(b, 40) == le16(content, 552) && le16(b, 42) == le16(content, 554));
    assert(le16(b, 44) == le16(content, 556) && le16(b, 46) == le16(content, 558));
    assert(le16(b, 48) == le16(content, 560) && le16(b, 50) == le16(content, 562));
    assert(le16(b, 52) == le16(content, 564) && le16(b, 54) == le16(content, 566));
}

/// A GPT set keeps what the header at LBA 1 says: the disk GUID, how many
/// entries of what size there are and where, and the usable range. It keeps
/// every entry in use of the first sector; and where entries are larger than
/// 128 bytes, what follows those bytes.
pub proof fn lemma_loaded_gpt_set(content: Seq<u8>, size: u64, s: SetView)
    requires
        set_on(content, size) == Ok::<SetView, Error>(s),
        s.table_kind == TableKind::Gpt,
    ensures
        content.len() >= 1024,
        s.disk_guid == content.subrange(568, 584),
        s.geometry.num_entries == le32(content, 592),
        s.geometry.entry_size == le32(content, 596),
        s.geometry.entry_lba == le64(content, 584),
        s.geometry.declared_usable == Some(
            (le64(content, 552) as u64, le64(content, 560) as u64),
        ),
        s.reserved == in_use(content.subrange(0, 512), 4),
        s.geometry.entry_size == 128 ==> s.tails == Map::<Seq<u8>, Seq<u8>>::empty(),
        s.geometry.entry_size != 128 ==> {
            let at = s.geometry.entry_lba * 512;
            let len = s.geometry.num_entries * s.geometry.entry_size;
            at + len <= content.len() || len == 0 ==> s.tails == tails_in(
                window(content, at, len as nat),
                s.geometry.entry_size as int,
                s.geometry.num_entries as int,
            )
        },
{
    if content.len() >= 512 {
        lemma_gpt_signature_decides(content, size);
    }
    assert(gpt_sign(content, size));
    assert(lba1_on(content, size) =~= content.subrange(512, 1024));
    let h = header_in(content.subrange(512, 1024))->Ok_0;
    lemma_header_of_lba1(content, h);
    assert(window(content, 0, 512) =~= content.subrange(0, 512));
}

/// Whether a commit of the set can be done on a disk of `size` bytes.
pub open spec fn committable(s: SetView, size: u64) -> bool {
    match s.table_kind {
        TableKind::Gpt => gpt_plan(s.parts, s.geometry, size as int / 512) is Ok,
        TableKind::Mbr => mbr_plan(s.parts, s.reserved, size) is Ok,
    }
}

/// A commit succeeds where it can: on a dependable device that takes writes
/// and holds what it states, of a set that can be written there.
pub proof fn lemma_commit_succeeds_where_it_can<D: BlockDevice + ?Sized>(
    before: &D,
    after: &D,
    s: SetView,
    r: Result<()>,
)
    requires
        committed(before, after, s, r),
        before.dependable(),
        before.writable(),
        before.content().len() >= before.stated_size(),
        committable(s, before.stated_size()),
    ensures
        r is Ok,
{
    if s.table_kind == TableKind::Mbr {
        assert(before.stated_size() >= 512);
    }
}

/// A commit that succeeds has written the whole table of the set, as it is,
/// and every write has reached stable storage.
pub proof fn lemma_commit_writes_the_set<D: BlockDevice + ?Sized>(
    before: &D,
    after: &D,
    s: SetView,
)
    requires
        committed(before, after, s, Ok::<(), Error>(())),
    ensures
        after.settled(),
        before.writable(),
        after.content().len() == before.content().len(),
        s.table_kind == TableKind::Gpt ==> {
            let total = before.stated_size() as int / 512;
            &&& gpt_plan(s.parts, s.geometry, total) is Ok
            &&& table_of(s).parts == s.parts && table_of(s).disk_guid == s.disk_guid
            &&& table_of(s).geometry == s.geometry && table_of(s).tails == s.tails
            &&& table_of(s).recorded == s.reserved
            &&& gpt_image(
                before.content(),
                after.content(),
                table_of(s),
                gpt_plan(s.parts, s.geometry, total)->Ok_0,
                total,
            )
        },
        s.table_kind == TableKind::Mbr ==> {
            &&& mbr_plan(s.parts, s.reserved, before.stated_size()) is Ok
            &&& before.content().len() >= 512
            &&& table_written(
                window(after.content(), 0, 512),
                window(before.content(), 0, 512),
                s.parts,
                mbr_plan(s.parts, s.reserved, before.stated_size())->Ok_0,
                s.reserved,
            )
        },
{
}

/// Whatever comes of a commit, a device keeps its size, and every byte that
/// is none of the table's: of an MBR the first sector; of a GPT the first
/// two, the last one, and the two arrays of entries, the second just before
/// the last sector.
pub proof fn lemma_commit_leaves_the_rest<D: BlockDevice + ?Sized>(
    before: &D,
    after: &D,
    s: SetView,
    r: Result<()>,
    i: int,
)
    requires
        committed(before, after, s, r),
        512 <= i < before.content().len(),
        s.table_kind == TableKind::Gpt ==> {
            let total = before.stated_size() as int / 512;
            let len = s.geometry.num_entries * s.geometry.entry_size;
            let second = (total - 1 - (len + 511) / 512) * 512;
            &&& 1024 <= i
            &&& !(s.geometry.entry_lba * 512 <= i < s.geometry.entry_lba * 512 + len)
            &&& !(second <= i < second + len)
            &&& !((total - 1) * 512 <= i < total * 512)
        },
    ensures
        after.content().len() == before.content().len(),
        after.stated_size() == before.stated_size(),
        after.writable() == before.writable(),
        after.content()[i] == before.content()[i],
{
}

/// A commit of a set that cannot be written says why and writes nothing; a
/// device that takes no writes is told from a set that cannot be written.
pub proof fn lemma_commit_is_refused_for_a_reason<D: BlockDevice + ?Sized>(
    before: &D,
    after: &D,
    s: SetView,
    r: Result<()>,
)
    requires
        committed(before, after, s, r),
    ensures
        !before.writable() ==> r == Err::<(), Error>(Error::Block(BlockError::ReadOnly))
            && after.content() == before.content(),
        before.writable() && !committable(s, before.stated_size()) ==> {
            &&& after.content() == before.content()
            &&& r == Err::<(), Error>(
                match s.table_kind {
                    TableKind::Gpt => gpt_plan(
                        s.parts,
                        s.geometry,
                        before.stated_size() as int / 512,
                    )->Err_0,
                    TableKind::Mbr => mbr_plan(s.parts, s.reserved, before.stated_size())->Err_0,
                },
            )
        },
{
}

/// A commit whose flush alone failed hands that failure on, and the whole
/// table is there.
pub proof fn lemma_failed_flush_leaves_the_table<D: BlockDevice + ?Sized>(
    before: &D,
    after: &D,
    s: SetView,
    r: Result<()>,
    e: BlockError,
)
    requires
        committed(before, after, s, r),
        before.flush_fault() is None,
        after.flush_fault() == Some(e),
    ensures
        r == Err::<(), Error>(Error::Block(e)),
        !before.dependable(),
        committable(s, before.stated_size()),
        s.table_kind == TableKind::Gpt ==> gpt_image(
            before.content(),
            after.content(),
            table_of(s),
            gpt_plan(s.parts, s.geometry, before.stated_size() as int / 512)->Ok_0,
            before.stated_size() as int / 512,
        ),
        s.table_kind == TableKind::Mbr ==> table_written(
            window(after.content(), 0, 512),
            window(before.content(), 0, 512),
            s.parts,
            mbr_plan(s.parts, s.reserved, before.stated_size())->Ok_0,
            s.reserved,
        ),
{
}

/// The slots that are recorded are those the table was written with, and
/// nothing else of the set changes.
pub proof fn lemma_recorded_slots_are_those_written(s: SetView, size: u64)
    requires
        committable(s, size),
    ensures
        set_slots(s) is Ok,
        s.table_kind == TableKind::Gpt ==> gpt_plan(
            s.parts,
            s.geometry,
            size as int / 512,
        )->Ok_0.slots == set_slots(s)->Ok_0,
        s.table_kind == TableKind::Mbr ==> mbr_plan(s.parts, s.reserved, size)->Ok_0 == set_slots(
            s,
        )->Ok_0,
        ({
            let slots = set_slots(s)->Ok_0;
            let after = with_slots(s, slots);
            &&& after == (SetView { parts: after.parts, ..s })
            &&& after.parts.len() == s.parts.len()
            &&& forall|k: int|
                0 <= k < s.parts.len() ==> #[trigger] after.parts[k] == (PartitionView {
                    slot: Some(slots[k]),
                    ..s.parts[k]
                })
        }),
{
}

/// A GPT whose larger entries share a UUID and differ in what follows byte
/// 128 is not loaded as a set; any other table that was found is.
pub proof fn lemma_only_torn_tails_are_refused(content: Seq<u8>, size: u64)
    requires
        table_found(content, size) is Ok,
    ensures
        set_on(content, size) is Err <==> table_found(content, size)->Ok_0.0 == TableKind::Gpt && {
            let h = header_in(content.subrange(512, 1024))->Ok_0;
            &&& h.partition_entry_size > 128
            &&& !tails_agree(
                array_on(content, size, h)->Ok_0,
                h.partition_entry_size as int,
                h.num_partition_entries as int,
            )
        },
{
    if table_found(content, size)->Ok_0.0 == TableKind::Gpt {
        lemma_gpt_signature_decides(content, size);
        assert(lba1_on(content, size) =~= content.subrange(512, 1024));
    }
}

} // verus!
