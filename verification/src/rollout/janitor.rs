//! One pass of the janitor over a rollout: what happens to each record, what
//! is written back, and the counts that report it.
use vstd::prelude::*;
use crate::json::{Json, JsonValue, json_text, to_json_text, json_equal};
use crate::text::{chars_of, string_of, contains_seq, push_str};
use crate::passive_capture::report::append;
use super::{scrub_json, saturate, scrub_inline_images, utf8_len, utf8_len_exec};
use super::events::{normalize_token_count_spec, normalize_goal_spec, normalize_token_count_event, normalize_thread_goal_token_count,
    is_high_token_count, is_high_token_count_spec, is_recoverable_task_error, is_recoverable_task_error_spec, ToolInfoModel};
use super::clean::{Record, RecordModel, RolloutAnalysis, LargeOutput, tool_models, size_models, scrub_user_images_spec,
    scrub_user_message_images, prune_inline_image_output_spec, prune_inline_image_output, large_output_spec, large_tool_output,
    apply_large_output_spec, apply_large_output, should_fold_spec, should_fold_line, opt_usize, record_models};

verus! {

/// The settings one pass works with.
pub struct CleanParams {
    pub thread_id: String,
    pub context_trigger_tokens: u64,
    pub recovery_tokens: u64,
    pub large_tool_output_bytes: usize,
}

/// A record that stays, rewritten, with what each step changed in it.
/// `large_output` is set when its tool output is too large to keep; the
/// output is replaced by `finish`, with a summary where one was made.
pub struct KeptRecord {
    pub value: JsonValue,
    pub normalized_token_count: bool,
    pub normalized_goal_token_count: bool,
    pub user_image_placeholders: usize,
    pub user_image_bytes: usize,
    pub image_output_bytes: Option<usize>,
    pub inline_image_bytes: usize,
    pub large_output: Option<LargeOutput>,
}

/// What happens to one record.
pub enum RecordAction {
    Fold,
    DropAlert,
    Keep(KeptRecord),
}

pub struct KeptModel {
    pub value: Json,
    pub token: bool,
    pub goal: bool,
    pub placeholders: int,
    pub placeholder_bytes: int,
    pub image_output: Option<int>,
    pub inline_bytes: int,
    pub large: Option<(int, ToolInfoModel, Seq<char>)>,
}

pub enum ActionModel {
    Fold,
    DropAlert,
    Keep(KeptModel),
}

impl KeptRecord {
    pub open spec fn model(&self) -> KeptModel {
        KeptModel {
            value: self.value.model(),
            token: self.normalized_token_count,
            goal: self.normalized_goal_token_count,
            placeholders: self.user_image_placeholders as int,
            placeholder_bytes: self.user_image_bytes as int,
            image_output: opt_usize(self.image_output_bytes),
            inline_bytes: self.inline_image_bytes as int,
            large: match self.large_output {
                Some(l) => Some((l.encoded_len as int, l.info.model(), l.original@)),
                None => None,
            },
        }
    }

    /// The record as it is written: a large output replaced by its summary,
    /// or by a note that it was pruned.
    pub fn finish(self, summary: Option<&str>) -> (res: JsonValue)
        ensures
            res.model() == match self.model().large {
                Some((len, info, _)) => apply_large_output_spec(self.value.model(), len, info, match summary { Some(s) => Some(s@), None => None }),
                None => self.value.model(),
            },
    {
        match &self.large_output {
            Some(l) => apply_large_output(self.value, l.encoded_len, &l.info, summary),
            None => self.value,
        }
    }
}

impl RecordAction {
    pub open spec fn model(&self) -> ActionModel {
        match self {
            RecordAction::Fold => ActionModel::Fold,
            RecordAction::DropAlert => ActionModel::DropAlert,
            RecordAction::Keep(k) => ActionModel::Keep(k.model()),
        }
    }
}

/// The rewriting steps, in order, on a record that stays: token counts,
/// goal token counts, user image attachments, images in tool outputs,
/// inline images anywhere else, and the search for a large output.
pub open spec fn keep_spec(
    v: Json,
    calls: Seq<(Seq<char>, ToolInfoModel)>,
    thread_id: Seq<char>,
    sizes: Seq<(Seq<char>, usize)>,
    total_bytes: int,
    trigger: u64,
    recovery: u64,
    threshold: usize,
) -> KeptModel {
    let (v1, token) = normalize_token_count_spec(v, total_bytes, trigger, recovery);
    let (v2, goal) = normalize_goal_spec(v1, trigger, recovery);
    let (v3, placeholders, placeholder_bytes) = scrub_user_images_spec(v2, thread_id, sizes);
    let (v4, image_output) = prune_inline_image_output_spec(v3, calls, thread_id);
    let (v5, inline) = scrub_json(v4, thread_id, "unknown image path"@);
    KeptModel {
        value: v5,
        token,
        goal,
        placeholders,
        placeholder_bytes,
        image_output,
        inline_bytes: saturate(inline),
        large: large_output_spec(v5, calls, threshold),
    }
}

/// What happens to the record at `index`: folded when it lies before the
/// fold start, dropped when it is a context alert, else kept and rewritten.
pub open spec fn clean_record_spec(
    index: int,
    v: Json,
    fold: Option<int>,
    calls: Seq<(Seq<char>, ToolInfoModel)>,
    thread_id: Seq<char>,
    sizes: Seq<(Seq<char>, usize)>,
    total_bytes: int,
    trigger: u64,
    recovery: u64,
    threshold: usize,
) -> ActionModel {
    if should_fold_spec(index, v, fold) {
        ActionModel::Fold
    } else if is_high_token_count_spec(v, trigger) || is_recoverable_task_error_spec(v) {
        ActionModel::DropAlert
    } else {
        ActionModel::Keep(keep_spec(v, calls, thread_id, sizes, total_bytes, trigger, recovery, threshold))
    }
}

/// Decides and performs what happens to one record (see `clean_record_spec`).
/// `total_bytes` is the length of all record lines (`total_line_bytes`);
/// `image_sizes` the sizes of the image files that user messages name.
pub fn clean_record(
    index: usize,
    record: &Record,
    analysis: &RolloutAnalysis,
    params: &CleanParams,
    total_bytes: usize,
    image_sizes: &Vec<(String, usize)>,
) -> (res: RecordAction)
    ensures
        res.model() == clean_record_spec(
            index as int,
            record.value.model(),
            opt_usize(analysis.fold_start_index),
            tool_models(analysis.tool_calls@),
            params.thread_id@,
            size_models(image_sizes@),
            total_bytes as int,
            params.context_trigger_tokens,
            params.recovery_tokens,
            params.large_tool_output_bytes,
        ),
{
    if should_fold_line(index, &record.value, analysis.fold_start_index) {
        return RecordAction::Fold;
    }
    if is_high_token_count(&record.value, params.context_trigger_tokens) || is_recoverable_task_error(&record.value) {
        return RecordAction::DropAlert;
    }
    let thread_id = chars_of(params.thread_id.as_str());
    let (v1, token) = normalize_token_count_event(record.value.deep_clone(), total_bytes, params.context_trigger_tokens, params.recovery_tokens);
    let (v2, goal) = normalize_thread_goal_token_count(v1, params.context_trigger_tokens, params.recovery_tokens);
    let (v3, placeholders, placeholder_bytes) = scrub_user_message_images(v2, thread_id.as_slice(), image_sizes);
    let (v4, image_output) = prune_inline_image_output(v3, &analysis.tool_calls, thread_id.as_slice());
    let unknown = chars_of("unknown image path");
    let (v5, inline) = scrub_inline_images(&v4, thread_id.as_slice(), unknown.as_slice());
    let large = large_tool_output(&v5, &analysis.tool_calls, params.large_tool_output_bytes);
    let kept = KeptRecord {
        value: v5,
        normalized_token_count: token,
        normalized_goal_token_count: goal,
        user_image_placeholders: placeholders,
        user_image_bytes: placeholder_bytes,
        image_output_bytes: image_output,
        inline_image_bytes: inline,
        large_output: large,
    };
    RecordAction::Keep(kept)
}

/// The total length of the record lines, in bytes.
pub open spec fn lines_bytes(records: Seq<RecordModel>) -> int
    decreases records.len(),
{
    if records.len() == 0 { 0 } else { lines_bytes(records.drop_last()) + utf8_len(records.last().line) }
}

pub open spec fn min_usize(n: int) -> usize {
    if n > usize::MAX { usize::MAX } else { n as usize }
}

/// The length of all record lines, which sizes the token estimate; it
/// saturates at `usize::MAX`.
pub fn total_line_bytes(records: &Vec<Record>) -> (res: usize)
    ensures
        res == min_usize(lines_bytes(super::clean::record_models(records@))),
{
    let ghost rm = super::clean::record_models(records@);
    let mut total: usize = 0;
    let mut i: usize = 0;
    while i < records.len()
        invariant
            i <= records@.len(),
            rm == super::clean::record_models(records@),
            rm.len() == records@.len(),
            total == min_usize(lines_bytes(rm.take(i as int))),
            lines_bytes(rm.take(i as int)) >= 0,
        decreases records.len() - i,
    {
        assert(rm.take(i + 1).drop_last() =~= rm.take(i as int));
        assert(rm.take(i + 1).last() == records@[i as int].model());
        let n = utf8_len_exec(records[i].line.as_str());
        total = total.saturating_add(n);
        i = i + 1;
    }
    assert(rm.take(rm.len() as int) =~= rm);
    total
}

/// The line written for a kept record: the original text when the value is
/// unchanged, else the value as JSON; then the original line ending.
pub open spec fn rendered_line(record: RecordModel, value: Json) -> Seq<char> {
    (if value == record.value { record.line } else { json_text(value) }) + record.newline
}

pub fn render_line(record: &Record, value: &JsonValue) -> (res: String)
    ensures
        res@ == rendered_line(record.model(), value.model()),
{
    let mut out = if json_equal(value, &record.value) { chars_of(record.line.as_str()) } else { chars_of(to_json_text(value).as_str()) };
    append(&mut out, chars_of(record.newline.as_str()).as_slice());
    string_of(out.as_slice())
}

/// What one pass did.
pub struct CleanStats {
    pub pruned_image_outputs: usize,
    pub pruned_user_image_attachments: usize,
    pub pruned_large_tool_outputs: usize,
    pub removed_data_uri_bytes: usize,
    pub removed_large_output_bytes: usize,
    pub dropped_context_alert_lines: usize,
    pub folded_obsolete_lines: usize,
    pub normalized_token_counts: usize,
    pub normalized_goal_token_counts: usize,
    pub backup_path: Option<String>,
}

/// `a + b`, saturating at `usize::MAX`.
pub open spec fn sat_add(a: usize, b: int) -> usize {
    min_usize(a + b)
}

/// The counts of a pass, without the backup path.
pub struct CountsModel {
    pub pruned_image_outputs: usize,
    pub pruned_user_image_attachments: usize,
    pub pruned_large_tool_outputs: usize,
    pub removed_data_uri_bytes: usize,
    pub removed_large_output_bytes: usize,
    pub dropped_context_alert_lines: usize,
    pub folded_obsolete_lines: usize,
    pub normalized_token_counts: usize,
    pub normalized_goal_token_counts: usize,
}

/// No record counted yet.
pub open spec fn zero_counts() -> CountsModel {
    CountsModel {
        pruned_image_outputs: 0,
        pruned_user_image_attachments: 0,
        pruned_large_tool_outputs: 0,
        removed_data_uri_bytes: 0,
        removed_large_output_bytes: 0,
        dropped_context_alert_lines: 0,
        folded_obsolete_lines: 0,
        normalized_token_counts: 0,
        normalized_goal_token_counts: 0,
    }
}

/// The counts after one more record: a folded line, a dropped alert, or
/// what the rewriting of a kept record changed (every count saturates).
pub open spec fn count_step(c: CountsModel, a: ActionModel) -> CountsModel {
    match a {
        ActionModel::Fold => CountsModel { folded_obsolete_lines: sat_add(c.folded_obsolete_lines, 1), ..c },
        ActionModel::DropAlert => CountsModel { dropped_context_alert_lines: sat_add(c.dropped_context_alert_lines, 1), ..c },
        ActionModel::Keep(k) => {
            let uri0 = if k.placeholders > 0 { sat_add(c.removed_data_uri_bytes, k.placeholder_bytes) } else { c.removed_data_uri_bytes };
            let uri1 = match k.image_output { Some(n) => sat_add(uri0, n), None => uri0 };
            let uri2 = if k.inline_bytes > 0 { sat_add(uri1, k.inline_bytes) } else { uri1 };
            let img0 = match k.image_output { Some(_) => sat_add(c.pruned_image_outputs, 1), None => c.pruned_image_outputs };
            let img1 = if k.inline_bytes > 0 { sat_add(img0, 1) } else { img0 };
            CountsModel {
                pruned_image_outputs: img1,
                pruned_user_image_attachments: if k.placeholders > 0 { sat_add(c.pruned_user_image_attachments, k.placeholders) } else { c.pruned_user_image_attachments },
                pruned_large_tool_outputs: match k.large { Some(_) => sat_add(c.pruned_large_tool_outputs, 1), None => c.pruned_large_tool_outputs },
                removed_data_uri_bytes: uri2,
                removed_large_output_bytes: match k.large { Some((len, _, _)) => sat_add(c.removed_large_output_bytes, len), None => c.removed_large_output_bytes },
                dropped_context_alert_lines: c.dropped_context_alert_lines,
                folded_obsolete_lines: c.folded_obsolete_lines,
                normalized_token_counts: if k.token { sat_add(c.normalized_token_counts, 1) } else { c.normalized_token_counts },
                normalized_goal_token_counts: if k.goal { sat_add(c.normalized_goal_token_counts, 1) } else { c.normalized_goal_token_counts },
            }
        },
    }
}

impl CleanStats {
    pub open spec fn counts(&self) -> CountsModel {
        CountsModel {
            pruned_image_outputs: self.pruned_image_outputs,
            pruned_user_image_attachments: self.pruned_user_image_attachments,
            pruned_large_tool_outputs: self.pruned_large_tool_outputs,
            removed_data_uri_bytes: self.removed_data_uri_bytes,
            removed_large_output_bytes: self.removed_large_output_bytes,
            dropped_context_alert_lines: self.dropped_context_alert_lines,
            folded_obsolete_lines: self.folded_obsolete_lines,
            normalized_token_counts: self.normalized_token_counts,
            normalized_goal_token_counts: self.normalized_goal_token_counts,
        }
    }

    /// Nothing done yet.
    pub fn new() -> (res: CleanStats)
        ensures
            res.pruned_image_outputs == 0,
            res.pruned_user_image_attachments == 0,
            res.pruned_large_tool_outputs == 0,
            res.removed_data_uri_bytes == 0,
            res.removed_large_output_bytes == 0,
            res.dropped_context_alert_lines == 0,
            res.folded_obsolete_lines == 0,
            res.normalized_token_counts == 0,
            res.normalized_goal_token_counts == 0,
            res.backup_path is None,
    {
        CleanStats {
            pruned_image_outputs: 0,
            pruned_user_image_attachments: 0,
            pruned_large_tool_outputs: 0,
            removed_data_uri_bytes: 0,
            removed_large_output_bytes: 0,
            dropped_context_alert_lines: 0,
            folded_obsolete_lines: 0,
            normalized_token_counts: 0,
            normalized_goal_token_counts: 0,
            backup_path: None,
        }
    }

    pub open spec fn changed_spec(&self) -> bool {
        self.pruned_image_outputs > 0 || self.pruned_user_image_attachments > 0 || self.pruned_large_tool_outputs > 0
            || self.dropped_context_alert_lines > 0 || self.folded_obsolete_lines > 0 || self.normalized_token_counts > 0
            || self.normalized_goal_token_counts > 0
    }

    pub open spec fn needs_backup_spec(&self) -> bool {
        self.pruned_image_outputs > 0 || self.pruned_user_image_attachments > 0 || self.pruned_large_tool_outputs > 0
            || self.folded_obsolete_lines > 0 || self.normalized_token_counts > 0 || self.normalized_goal_token_counts > 0
    }

    /// Whether the rollout has to be written back.
    pub fn changed(&self) -> (res: bool)
        ensures
            res == self.changed_spec(),
    {
        self.pruned_image_outputs > 0 || self.pruned_user_image_attachments > 0 || self.pruned_large_tool_outputs > 0
            || self.dropped_context_alert_lines > 0 || self.folded_obsolete_lines > 0 || self.normalized_token_counts > 0
            || self.normalized_goal_token_counts > 0
    }

    /// Whether a backup is kept first: dropping context alerts alone needs none.
    pub fn needs_backup(&self) -> (res: bool)
        ensures
            res == self.needs_backup_spec(),
    {
        self.pruned_image_outputs > 0 || self.pruned_user_image_attachments > 0 || self.pruned_large_tool_outputs > 0
            || self.folded_obsolete_lines > 0 || self.normalized_token_counts > 0 || self.normalized_goal_token_counts > 0
    }

    /// Counts what happened to one record; every count saturates.
    pub fn count(&mut self, action: &RecordAction)
        ensures
            final(self).backup_path == old(self).backup_path,
            final(self).counts() == count_step(old(self).counts(), action.model()),
    {
        match action {
            RecordAction::Fold => {
                self.folded_obsolete_lines = self.folded_obsolete_lines.saturating_add(1);
            },
            RecordAction::DropAlert => {
                self.dropped_context_alert_lines = self.dropped_context_alert_lines.saturating_add(1);
            },
            RecordAction::Keep(k) => {
                if k.normalized_token_count {
                    self.normalized_token_counts = self.normalized_token_counts.saturating_add(1);
                }
                if k.normalized_goal_token_count {
                    self.normalized_goal_token_counts = self.normalized_goal_token_counts.saturating_add(1);
                }
                if k.user_image_placeholders > 0 {
                    self.pruned_user_image_attachments = self.pruned_user_image_attachments.saturating_add(k.user_image_placeholders);
                    self.removed_data_uri_bytes = self.removed_data_uri_bytes.saturating_add(k.user_image_bytes);
                }
                match k.image_output_bytes {
                    Some(n) => {
                        self.pruned_image_outputs = self.pruned_image_outputs.saturating_add(1);
                        self.removed_data_uri_bytes = self.removed_data_uri_bytes.saturating_add(n);
                    },
                    None => {},
                }
                if k.inline_image_bytes > 0 {
                    self.pruned_image_outputs = self.pruned_image_outputs.saturating_add(1);
                    self.removed_data_uri_bytes = self.removed_data_uri_bytes.saturating_add(k.inline_image_bytes);
                }
                match &k.large_output {
                    Some(l) => {
                        self.pruned_large_tool_outputs = self.pruned_large_tool_outputs.saturating_add(1);
                        self.removed_large_output_bytes = self.removed_large_output_bytes.saturating_add(l.encoded_len);
                    },
                    None => {},
                }
            },
        }
    }
}

/// The value written for a kept record when no summary is made: a large
/// output replaced by the note that it was pruned.
pub open spec fn finished_value(k: KeptModel) -> Json {
    match k.large {
        Some((len, info, _)) => apply_large_output_spec(k.value, len, info, None),
        None => k.value,
    }
}

/// What a pass does to each record (see `clean_record_spec`).
pub open spec fn pass_actions(
    records: Seq<RecordModel>,
    fold: Option<int>,
    calls: Seq<(Seq<char>, ToolInfoModel)>,
    thread_id: Seq<char>,
    sizes: Seq<(Seq<char>, usize)>,
    total_bytes: int,
    trigger: u64,
    recovery: u64,
    threshold: usize,
) -> Seq<ActionModel> {
    Seq::new(records.len(), |i: int| clean_record_spec(i, records[i].value, fold, calls, thread_id, sizes, total_bytes, trigger, recovery, threshold))
}

/// The text a pass writes: the line of every kept record, in order.
pub open spec fn pass_text(records: Seq<RecordModel>, actions: Seq<ActionModel>) -> Seq<char>
    decreases records.len(),
{
    if records.len() == 0 || actions.len() < records.len() {
        Seq::empty()
    } else {
        let n = records.len() - 1;
        pass_text(records.drop_last(), actions.take(n)) + match actions[n] {
            ActionModel::Keep(k) => rendered_line(records[n], finished_value(k)),
            _ => Seq::empty(),
        }
    }
}

/// The counts of a pass: every action counted in turn.
pub open spec fn pass_counts(actions: Seq<ActionModel>) -> CountsModel
    decreases actions.len(),
{
    if actions.len() == 0 {
        zero_counts()
    } else {
        count_step(pass_counts(actions.drop_last()), actions.last())
    }
}

/// One pass over a rollout's records, with no summaries made: the text to
/// write back and what the pass did (no backup path yet).
pub fn clean_pass(
    records: &Vec<Record>,
    analysis: &RolloutAnalysis,
    params: &CleanParams,
    total_bytes: usize,
    image_sizes: &Vec<(String, usize)>,
) -> (res: (String, CleanStats))
    ensures
        res.0@ == pass_text(
            record_models(records@),
            pass_actions(
                record_models(records@),
                opt_usize(analysis.fold_start_index),
                tool_models(analysis.tool_calls@),
                params.thread_id@,
                size_models(image_sizes@),
                total_bytes as int,
                params.context_trigger_tokens,
                params.recovery_tokens,
                params.large_tool_output_bytes,
            ),
        ),
        res.1.counts() == pass_counts(
            pass_actions(
                record_models(records@),
                opt_usize(analysis.fold_start_index),
                tool_models(analysis.tool_calls@),
                params.thread_id@,
                size_models(image_sizes@),
                total_bytes as int,
                params.context_trigger_tokens,
                params.recovery_tokens,
                params.large_tool_output_bytes,
            ),
        ),
        res.1.backup_path is None,
{
    let ghost rm = record_models(records@);
    let ghost acts = pass_actions(
        rm,
        opt_usize(analysis.fold_start_index),
        tool_models(analysis.tool_calls@),
        params.thread_id@,
        size_models(image_sizes@),
        total_bytes as int,
        params.context_trigger_tokens,
        params.recovery_tokens,
        params.large_tool_output_bytes,
    );
    let mut stats = CleanStats::new();
    let mut output = String::new();
    let mut i: usize = 0;
    assert(rm.take(0) =~= Seq::<RecordModel>::empty());
    assert(acts.take(0) =~= Seq::<ActionModel>::empty());
    assert(stats.counts() == zero_counts());
    while i < records.len()
        invariant
            i <= records@.len(),
            rm == record_models(records@),
            rm.len() == records@.len(),
            acts.len() == rm.len(),
            acts == pass_actions(
                rm,
                opt_usize(analysis.fold_start_index),
                tool_models(analysis.tool_calls@),
                params.thread_id@,
                size_models(image_sizes@),
                total_bytes as int,
                params.context_trigger_tokens,
                params.recovery_tokens,
                params.large_tool_output_bytes,
            ),
            output@ == pass_text(rm.take(i as int), acts.take(i as int)),
            stats.counts() == pass_counts(acts.take(i as int)),
            stats.backup_path is None,
        decreases records.len() - i,
    {
        let action = clean_record(i, &records[i], analysis, params, total_bytes, image_sizes);
        assert(action.model() == acts[i as int]);
        assert(rm[i as int] == records@[i as int].model());
        proof {
            assert(rm.take(i + 1).drop_last() =~= rm.take(i as int));
            assert(acts.take(i + 1).take(i as int) =~= acts.take(i as int));
            assert(acts.take(i + 1).drop_last() =~= acts.take(i as int));
            assert(acts.take(i + 1)[i as int] == acts[i as int]);
            assert(acts.take(i + 1).last() == acts[i as int]);
            assert(rm.take(i + 1)[i as int] == rm[i as int]);
        }
        stats.count(&action);
        match action {
            RecordAction::Keep(kept) => {
                let value = kept.finish(None);
                let line = render_line(&records[i], &value);
                push_str(&mut output, line.as_str());
            },
            _ => {},
        }
        i = i + 1;
    }
    assert(rm.take(rm.len() as int) =~= rm);
    assert(acts.take(acts.len() as int) =~= acts);
    (output, stats)
}

/// What one database repair changed.
pub struct DbStats {
    pub state_thread_rows: usize,
    pub goal_rows: usize,
}

impl DbStats {
    pub fn changed(&self) -> (res: bool)
        ensures
            res == (self.state_thread_rows > 0 || self.goal_rows > 0),
    {
        self.state_thread_rows > 0 || self.goal_rows > 0
    }
}

/// A thread id that can name files safely: 1 to 80 bytes of hex digits
/// and dashes.
pub open spec fn safe_thread_id(t: Seq<char>) -> bool {
    &&& t.len() > 0
    &&& t.len() <= 80
    &&& forall|i: int| 0 <= i < t.len() ==> crate::text::is_hex_digit_char(#[trigger] t[i]) || t[i] == '-'
}

pub fn is_safe_thread_id(thread_id: &str) -> (res: bool)
    ensures
        res == safe_thread_id(thread_id@),
{
    let t = chars_of(thread_id);
    if t.len() == 0 || t.len() > 80 {
        return false;
    }
    let mut i: usize = 0;
    while i < t.len()
        invariant
            i <= t@.len(),
            t@ == thread_id@,
            forall|j: int| 0 <= j < i ==> crate::text::is_hex_digit_char(#[trigger] t@[j]) || t@[j] == '-',
        decreases t.len() - i,
    {
        let c = t[i];
        if !(('0' <= c && c <= '9') || ('a' <= c && c <= 'f') || ('A' <= c && c <= 'F') || c == '-') {
            return false;
        }
        i = i + 1;
    }
    true
}

/// Why a pass refuses to start.
pub enum ScopeError {
    UnsafeThreadId,
    RecoveryNotBelowTrigger,
    RolloutPathWithoutThread,
    CanonicalPathWithoutThread,
}

impl ScopeError {
    pub fn message(&self) -> (res: String)
        ensures
            res@ == match self {
                ScopeError::UnsafeThreadId => "thread id must be a safe UUID-like Codex thread id"@,
                ScopeError::RecoveryNotBelowTrigger => "--recovery-tokens must be lower than --context-trigger-tokens"@,
                ScopeError::RolloutPathWithoutThread => "rollout path does not contain the configured thread id"@,
                ScopeError::CanonicalPathWithoutThread => "canonical rollout path does not contain the configured thread id"@,
            },
    {
        match self {
            ScopeError::UnsafeThreadId => string_of(chars_of("thread id must be a safe UUID-like Codex thread id").as_slice()),
            ScopeError::RecoveryNotBelowTrigger => string_of(chars_of("--recovery-tokens must be lower than --context-trigger-tokens").as_slice()),
            ScopeError::RolloutPathWithoutThread => string_of(chars_of("rollout path does not contain the configured thread id").as_slice()),
            ScopeError::CanonicalPathWithoutThread => string_of(chars_of("canonical rollout path does not contain the configured thread id").as_slice()),
        }
    }
}

/// The checks on the settings, in order: a safe thread id, a recovery size
/// below the trigger, and a rollout path (as given, then as resolved on
/// disk) that names the thread.
pub open spec fn check_scope_spec(thread_id: Seq<char>, trigger: u64, recovery: u64, rollout: Seq<char>, canonical: Seq<char>) -> Result<(), ScopeError> {
    if !safe_thread_id(thread_id) {
        Err(ScopeError::UnsafeThreadId)
    } else if recovery >= trigger {
        Err(ScopeError::RecoveryNotBelowTrigger)
    } else if !contains_seq(rollout, thread_id) {
        Err(ScopeError::RolloutPathWithoutThread)
    } else if !contains_seq(canonical, thread_id) {
        Err(ScopeError::CanonicalPathWithoutThread)
    } else {
        Ok(())
    }
}

/// Checks the settings before a pass (see `check_scope_spec`); `canonical`
/// is the rollout path as the file system resolves it.
pub fn check_scope(thread_id: &str, context_trigger_tokens: u64, recovery_tokens: u64, rollout: &str, canonical: &str) -> (res: Result<(), ScopeError>)
    ensures
        res == check_scope_spec(thread_id@, context_trigger_tokens, recovery_tokens, rollout@, canonical@),
{
    if !is_safe_thread_id(thread_id) {
        return Err(ScopeError::UnsafeThreadId);
    }
    if recovery_tokens >= context_trigger_tokens {
        return Err(ScopeError::RecoveryNotBelowTrigger);
    }
    if !super::events::contains_text(chars_of(rollout).as_slice(), thread_id) {
        return Err(ScopeError::RolloutPathWithoutThread);
    }
    if !super::events::contains_text(chars_of(canonical).as_slice(), thread_id) {
        return Err(ScopeError::CanonicalPathWithoutThread);
    }
    Ok(())
}

/// A pass starts only inside its exact scope: a safe thread id, a recovery
/// size below the trigger, and a rollout path that names the thread both as
/// given and as resolved on disk.
pub proof fn lemma_scope_is_exact(thread_id: Seq<char>, trigger: u64, recovery: u64, rollout: Seq<char>, canonical: Seq<char>)
    requires
        check_scope_spec(thread_id, trigger, recovery, rollout, canonical) is Ok,
    ensures
        safe_thread_id(thread_id),
        recovery < trigger,
        contains_seq(rollout, thread_id),
        contains_seq(canonical, thread_id),
{
}

/// Every pass that keeps a backup also rewrites the rollout.
pub proof fn lemma_backup_only_with_rewrite(stats: CleanStats)
    requires
        stats.needs_backup_spec(),
    ensures
        stats.changed_spec(),
{
}

/// The name of the backup kept before a rewrite:
/// `<rollout file name>.before-janitor-<unix seconds>.jsonl`, with
/// `rollout.jsonl` when the rollout path has no usable file name.
pub open spec fn backup_file_name_spec(basename: Option<Seq<char>>, stamp: u64) -> Seq<char> {
    (match basename { Some(b) => b, None => "rollout.jsonl"@ }) + ".before-janitor-"@ + crate::text::decimal_text(stamp as nat) + ".jsonl"@
}

pub fn backup_file_name(basename: Option<&str>, stamp: u64) -> (res: String)
    ensures
        res@ == backup_file_name_spec(match basename { Some(b) => Some(b@), None => None }, stamp),
{
    let mut out = match basename { Some(b) => chars_of(b), None => chars_of("rollout.jsonl") };
    append(&mut out, chars_of(".before-janitor-").as_slice());
    append(&mut out, crate::text::u64_text(stamp).as_slice());
    append(&mut out, chars_of(".jsonl").as_slice());
    string_of(out.as_slice())
}

} // verus!
